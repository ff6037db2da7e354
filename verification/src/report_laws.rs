//! What a report shows: the quantities that are selected, the value of each, the curves
//! of a chart, and the order of a breakdown.
use crate::chart::{drawn, is_curve, plan_chart, Chart, ChartKind};
use crate::netlist::Netlist;
use crate::number::{Real, INFINITY, SIGN};
use crate::quantity::{
    has_index, labels, names_something, notation_of, select_quantities, selected_by, selection,
    selects, Notation, Quantity, UnknownQuantity, FIXED_POINT_FLOOR,
};
use crate::report::{
    comes_before, is_indented_rendering, is_potential_at, is_quantity_named, is_rendering,
    loudest_first, named_quantity, noise_units, potential_at, rendered, report, shown, NoiseUnits,
};
use crate::search::lemma_first_where_holds;
use crate::solve_laws::{is_device_at, is_in_deck};
use crate::text::{is_sorting_of, same_ignoring_case, texts, trim};
use vstd::prelude::*;

verus! {

// ---- selection ------------------------------------------------------------

/// A selector, without the white space around it, is the name or the label of a quantity,
/// in letters of whatever case.
pub open spec fn picks(selector: Seq<char>, q: Quantity) -> bool {
    same_ignoring_case(q.name@, trim(selector)) || same_ignoring_case(q.label@, trim(selector))
}

/// The place of the first selector that picks a quantity; their number where none does.
pub open spec fn first_pick(selectors: Seq<String>, q: Quantity) -> int
    decreases selectors.len(),
{
    if selectors.len() == 0 {
        0
    } else {
        let before = first_pick(selectors.drop_last(), q);
        if before < selectors.len() - 1 {
            before
        } else if picks(selectors.last()@, q) {
            selectors.len() - 1
        } else {
            selectors.len() as int
        }
    }
}

proof fn lemma_first_pick(selectors: Seq<String>, q: Quantity)
    ensures
        0 <= first_pick(selectors, q) <= selectors.len(),
        forall|s: int|
            0 <= s < first_pick(selectors, q) ==> !picks((#[trigger] selectors[s])@, q),
        first_pick(selectors, q) < selectors.len() ==> picks(
            selectors[first_pick(selectors, q)]@,
            q,
        ),
    decreases selectors.len(),
{
    if selectors.len() > 0 {
        let fewer = selectors.drop_last();
        lemma_first_pick(fewer, q);
        assert forall|s: int| 0 <= s < first_pick(selectors, q) implies !picks(
            (#[trigger] selectors[s])@,
            q,
        ) by {
            if s < fewer.len() {
                assert(fewer[s] == selectors[s]);
            }
        }
    }
}

/// No two quantities stand for one place.
pub open spec fn are_distinct(all: Seq<Quantity>) -> bool {
    forall|i: int, j: int|
        0 <= i < j < all.len() ==> (#[trigger] all[i]).index != (#[trigger] all[j]).index
}

/// One quantity is selected before another: an earlier selector picks it first, or the
/// same one does and it stands before the other.
pub open spec fn is_selected_before(
    all: Seq<Quantity>,
    selectors: Seq<String>,
    k: int,
    l: int,
) -> bool {
    let (s, t) = (first_pick(selectors, all[k]), first_pick(selectors, all[l]));
    s < t || (s == t && k < l)
}

/// The places among all quantities of those that are selected.
pub open spec fn is_listing_of(all: Seq<Quantity>, places: Seq<int>, out: Seq<Quantity>) -> bool {
    &&& places.len() == out.len()
    &&& forall|i: int|
        0 <= i < out.len() ==> 0 <= #[trigger] places[i] < all.len() && out[i] == all[places[i]]
}

proof fn lemma_pass(
    out: Seq<Quantity>,
    all: Seq<Quantity>,
    selectors: Seq<String>,
    upto: int,
    places: Seq<int>,
) -> (more: Seq<int>)
    requires
        selectors.len() > 0,
        0 <= upto <= all.len(),
        are_distinct(all),
        is_listing_of(all, places, out),
        out == selection(all, selectors.drop_last()),
        forall|i: int|
            0 <= i < places.len() ==> first_pick(selectors, all[#[trigger] places[i]])
                < selectors.len() - 1,
        forall|k: int|
            0 <= k < all.len() && first_pick(selectors.drop_last(), #[trigger] all[k])
                < selectors.len() - 1 ==> has_index(out, all[k].index),
    ensures
        is_listing_of(all, more, selected_by(out, all, selectors.last()@, upto)),
        more.len() >= places.len(),
        forall|i: int| 0 <= i < places.len() ==> more[i] == #[trigger] places[i],
        forall|i: int|
            places.len() <= i < more.len() ==> (#[trigger] more[i]) < upto && first_pick(
                selectors,
                all[more[i]],
            ) == selectors.len() - 1,
        forall|i: int, j: int|
            places.len() <= i < j < more.len() ==> (#[trigger] more[i]) < (#[trigger] more[j]),
    decreases upto,
{
    if upto <= 0 {
        places
    } else {
        let before = lemma_pass(out, all, selectors, upto - 1, places);
        let kept = selected_by(out, all, selectors.last()@, upto - 1);
        let q = all[upto - 1];
        if selects(selectors.last()@, q@) && !has_index(kept, q.index) {
            let more = before.push(upto - 1);
            assert(kept.push(q) == selected_by(out, all, selectors.last()@, upto));
            assert(first_pick(selectors, q) == selectors.len() - 1) by {
                lemma_first_pick(selectors.drop_last(), q);
                if first_pick(selectors.drop_last(), q) < selectors.len() - 1 {
                    assert(has_index(out, q.index));
                    let i = choose|i: int|
                        0 <= i < out.len() && #[trigger] out[i].index == q.index;
                    assert(before[i] == places[i]);
                    assert(kept[i] == all[before[i]]);
                    assert(kept[i].index == q.index);
                }
                assert(picks(selectors.last()@, q));
            }
            assert forall|i: int| 0 <= i < places.len() implies more[i] == #[trigger] places[i] by {
                assert(before[i] == places[i]);
            }
            more
        } else {
            before
        }
    }
}

proof fn lemma_selection_order(all: Seq<Quantity>, selectors: Seq<String>) -> (places: Seq<int>)
    requires
        are_distinct(all),
    ensures
        is_listing_of(all, places, selection(all, selectors)),
        forall|i: int|
            0 <= i < places.len() ==> first_pick(selectors, all[#[trigger] places[i]])
                < selectors.len(),
        forall|i: int, j: int|
            0 <= i < j < places.len() ==> is_selected_before(
                all,
                selectors,
                #[trigger] places[i],
                #[trigger] places[j],
            ),
        forall|k: int|
            0 <= k < all.len() && first_pick(selectors, #[trigger] all[k]) < selectors.len()
                ==> has_index(selection(all, selectors), all[k].index),
    decreases selectors.len(),
{
    if selectors.len() == 0 {
        Seq::empty()
    } else {
        let fewer = selectors.drop_last();
        let before = lemma_selection_order(all, fewer);
        let out = selection(all, fewer);
        assert forall|i: int| 0 <= i < before.len() implies first_pick(
            selectors,
            all[#[trigger] before[i]],
        ) < selectors.len() - 1 by {
            assert(first_pick(fewer, all[before[i]]) < fewer.len());
        }
        let places = lemma_pass(out, all, selectors, all.len() as int, before);
        assert forall|i: int, j: int| 0 <= i < j < places.len() implies is_selected_before(
            all,
            selectors,
            #[trigger] places[i],
            #[trigger] places[j],
        ) by {
            if i < before.len() {
                assert(places[i] == before[i]);
                assert(first_pick(selectors, all[before[i]]) < selectors.len() - 1);
                if j < before.len() {
                    assert(places[j] == before[j]);
                    assert(is_selected_before(all, fewer, before[i], before[j]));
                    assert(first_pick(selectors, all[before[j]]) < selectors.len() - 1);
                }
            }
        }
        assert forall|i: int| 0 <= i < places.len() implies first_pick(
            selectors,
            all[#[trigger] places[i]],
        ) < selectors.len() by {
            if i < before.len() {
                assert(places[i] == before[i]);
            }
        }
        assert forall|k: int|
            0 <= k < all.len() && first_pick(selectors, #[trigger] all[k])
                < selectors.len() implies has_index(selection(all, selectors), all[k].index) by {
            lemma_first_pick(selectors, all[k]);
            let s = first_pick(selectors, all[k]);
            assert(selects(selectors[s]@, all[k]@));
            crate::quantity::a_selection_is_complete_and_distinct(all, selectors, s, k);
        }
        places
    }
}

/// A selection holds exactly the quantities that some selector picks, each once, in the
/// order of the first selectors that pick them and else in their own order. Without
/// selectors it holds all of them.
pub proof fn a_selection_follows_its_selectors(
    all: &Vec<Quantity>,
    selectors: &Vec<String>,
    out: Vec<Quantity>,
) -> (places: Seq<int>)
    requires
        call_ensures(select_quantities, (all, selectors), Ok(out)),
        are_distinct(all@),
    ensures
        selectors@.len() == 0 ==> out@ == all@,
        selectors@.len() > 0 ==> {
            &&& is_listing_of(all@, places, out@)
            &&& forall|i: int, j: int|
                0 <= i < j < places.len() ==> is_selected_before(
                    all@,
                    selectors@,
                    #[trigger] places[i],
                    #[trigger] places[j],
                )
            &&& forall|i: int|
                0 <= i < out@.len() ==> exists|s: int|
                    0 <= s < selectors@.len() && picks((#[trigger] selectors@[s])@, #[trigger] out@[i])
            &&& forall|k: int, s: int|
                0 <= k < all@.len() && 0 <= s < selectors@.len() && picks(
                    (#[trigger] selectors@[s])@,
                    #[trigger] all@[k],
                ) ==> out@.contains(all@[k])
        },
{
    let places = lemma_selection_order(all@, selectors@);
    if selectors@.len() > 0 {
        assert forall|i: int| 0 <= i < out@.len() implies exists|s: int|
            0 <= s < selectors@.len() && picks((#[trigger] selectors@[s])@, #[trigger] out@[i]) by {
            lemma_first_pick(selectors@, all@[places[i]]);
            let s = first_pick(selectors@, all@[places[i]]);
            assert(picks(selectors@[s]@, out@[i]));
        }
        assert forall|k: int, s: int|
            0 <= k < all@.len() && 0 <= s < selectors@.len() && picks(
                (#[trigger] selectors@[s])@,
                #[trigger] all@[k],
            ) implies out@.contains(all@[k]) by {
            assert(selects(selectors@[s]@, all@[k]@));
            crate::quantity::a_selection_is_complete_and_distinct(all@, selectors@, s, k);
            let i = choose|i: int| 0 <= i < out@.len() && #[trigger] out@[i].index == all@[k].index;
            assert(out@[i] == all@[places[i]]);
            if places[i] < k {
                assert(all@[places[i]].index != all@[k].index);
            }
            if k < places[i] {
                assert(all@[k].index != all@[places[i]].index);
            }
            assert(out@[i] == all@[k]);
        }
    }
    places
}

/// A selection is refused exactly if some selector picks nothing; it then names the first
/// such one, and lists the labels that there are.
pub proof fn a_selection_is_refused_for_its_first_idle_selector(
    all: &Vec<Quantity>,
    selectors: &Vec<String>,
    r: Result<Vec<Quantity>, UnknownQuantity>,
)
    requires
        call_ensures(select_quantities, (all, selectors), r),
    ensures
        r is Ok <==> forall|s: int|
            0 <= s < selectors@.len() ==> !#[trigger] is_idle(all@, selectors@[s]@),
        r matches Err(e) ==> exists|s: int|
            {
                &&& 0 <= s < selectors@.len()
                &&& #[trigger] is_idle(all@, selectors@[s]@)
                &&& e.selector@ == trim(selectors@[s]@)
                &&& forall|t: int| 0 <= t < s ==> !#[trigger] is_idle(all@, selectors@[t]@)
            },
        r matches Err(e) ==> forall|label: Seq<char>| #[trigger]
            texts(e.known@).contains(label) <==> has_label(all@, label),
{
    assert forall|s: int| 0 <= s < selectors@.len() implies #[trigger] is_idle(
        all@,
        selectors@[s]@,
    ) == !names_something(all@, selectors@[s]@) by {
        if names_something(all@, selectors@[s]@) {
            let i = choose|i: int|
                0 <= i < all@.len() && selects(selectors@[s]@, #[trigger] all@[i]@);
            assert(picks(selectors@[s]@, all@[i]));
        }
        if !is_idle(all@, selectors@[s]@) {
            let i = choose|i: int| 0 <= i < all@.len() && #[trigger] picks(selectors@[s]@, all@[i]);
            assert(selects(selectors@[s]@, all@[i]@));
        }
    }
    if r is Err {
        let e = r->Err_0;
        let i = choose|i: int|
            {
                &&& 0 <= i < selectors@.len()
                &&& !(#[trigger] names_something(all@, selectors@[i]@))
                &&& forall|j: int| 0 <= j < i ==> #[trigger] names_something(all@, selectors@[j]@)
                &&& e.selector@ == trim(selectors@[i]@)
                &&& is_sorting_of(texts(e.known@), labels(all@))
            };
        assert(is_idle(all@, selectors@[i]@));
        lemma_labels(all@, texts(e.known@));
        assert forall|t: int| 0 <= t < i implies !#[trigger] is_idle(all@, selectors@[t]@) by {
            assert(names_something(all@, selectors@[t]@));
        }
    } else {
        assert forall|s: int| 0 <= s < selectors@.len() implies !#[trigger] is_idle(
            all@,
            selectors@[s]@,
        ) by {
            assert(names_something(all@, selectors@[s]@));
        }
    }
}

/// Some quantity has this label.
pub open spec fn has_label(all: Seq<Quantity>, label: Seq<char>) -> bool {
    exists|k: int| 0 <= k < all.len() && (#[trigger] all[k]).label@ == label
}

proof fn lemma_labels(all: Seq<Quantity>, known: Seq<Seq<char>>)
    requires
        is_sorting_of(known, labels(all)),
    ensures
        forall|label: Seq<char>| #[trigger] known.contains(label) <==> has_label(all, label),
{
    let names = labels(all);
    names.to_multiset_ensures();
    known.to_multiset_ensures();
    assert forall|label: Seq<char>| #[trigger] known.contains(label) <==> has_label(all, label) by {
        assert(known.contains(label) <==> known.to_multiset().count(label) > 0);
        assert(names.contains(label) <==> names.to_multiset().count(label) > 0);
        if names.contains(label) {
            let k = choose|k: int| 0 <= k < names.len() && names[k] == label;
            assert(all[k].label@ == label);
        }
        if has_label(all, label) {
            let k = choose|k: int| 0 <= k < all.len() && (#[trigger] all[k]).label@ == label;
            assert(names[k] == label);
        }
    }
}

/// The selector picks none of the quantities.
pub open spec fn is_idle(all: Seq<Quantity>, selector: Seq<char>) -> bool {
    forall|k: int| 0 <= k < all.len() ==> !#[trigger] picks(selector, all[k])
}

// ---- values ---------------------------------------------------------------

proof fn lemma_shown(quantities: Seq<Quantity>, n: nat)
    ensures
        shown(quantities, n) == quantities.filter(|q: Quantity| q.index < n),
        drawn(quantities, n) == quantities.filter(|q: Quantity| q.index < n),
    decreases quantities.len(),
{
    reveal(Seq::filter);
    if quantities.len() > 0 {
        lemma_shown(quantities.drop_last(), n);
    }
}

/// A potential is spelled in fixed point exactly if it is zero or lies at least one
/// thousandth from it; everything else is spelled with an exponent.
pub proof fn a_small_value_is_spelled_with_an_exponent(q: &Quantity, value: Real, r: Notation)
    requires
        call_ensures(Quantity::notation, (q, value), r),
    ensures
        r is Fixed <==> q.is_potential && (is_zero(value) || (Real { bits: FIXED_POINT_FLOOR }).le(
            value,
        ) || value.le((Real { bits: FIXED_POINT_FLOOR }).opposite())),
{
}

/// The number is zero.
pub open spec fn is_zero(x: Real) -> bool {
    x.le(Real { bits: 0 }) && (Real { bits: 0 }).le(x)
}

/// An operating point is reported with one line for each quantity that stands for a place
/// of the solution, in order: its label, the value at its own place, and its unit, if it
/// has one.
pub proof fn every_quantity_is_reported_with_its_value<F: Fn(Notation, Real) -> String>(
    quantities: &Vec<Quantity>,
    x: &Vec<Real>,
    spell: &F,
    r: Vec<String>,
    k: int,
)
    requires
        call_ensures(report::<F>, (quantities, x, spell), r),
        0 <= k < quantities@.filter(|q: Quantity| q.index < x@.len()).len(),
    ensures
        r@.len() == quantities@.filter(|q: Quantity| q.index < x@.len()).len() + 1,
        ({
            let q = quantities@.filter(|q: Quantity| q.index < x@.len())[k];
            exists|notation: Notation, digits: String|
                {
                    &&& #[trigger] call_ensures(*spell, (notation, x@[q.index as int]), digits)
                    &&& q.unit@.len() > 0 ==> r@[k + 1]@ == "  "@ + (q.label@ + " = "@ + digits@ + (
                    " "@ + q.unit@))
                    &&& q.unit@.len() == 0 ==> r@[k + 1]@ == "  "@ + (q.label@ + " = "@ + digits@
                        + Seq::<char>::empty())
                }
        }),
{
    lemma_shown(quantities@, x@.len());
    let q = quantities@.filter(|q: Quantity| q.index < x@.len())[k];
    let line = r@[k + 1]@;
    assert(is_indented_rendering(*spell, shown(quantities@, x@.len())[k + 1 - 1], x@, line));
    let text = choose|text: Seq<char>| #[trigger]
        is_rendering(*spell, q, x@[q.index as int], text) && line == "  "@ + text;
    let notation = notation_of(q.is_potential, x@[q.index as int]);
    let t = choose|t: String| #[trigger]
        call_ensures(*spell, (notation, x@[q.index as int]), t) && text == rendered(q, t@);
    assert(call_ensures(*spell, (notation, x@[q.index as int]), t));
}

// ---- charts ---------------------------------------------------------------

/// The quantities that are nets.
pub open spec fn nets_among(quantities: Seq<Quantity>, nets: nat) -> Seq<Quantity> {
    quantities.filter(|q: Quantity| q.index < nets)
}

proof fn lemma_curve(
    kind: &ChartKind,
    quantities: &Vec<Quantity>,
    nets: usize,
    places: &Vec<Real>,
    rows: &Vec<Vec<Real>>,
    chart: Chart,
    k: int,
)
    requires
        call_ensures(plan_chart, (kind, quantities, nets, places, rows), Ok(chart)),
        0 <= k < nets_among(quantities@, nets as nat).len(),
    ensures
        chart.curves@.len() == nets_among(quantities@, nets as nat).len(),
        is_curve(
            chart.curves@[k],
            nets_among(quantities@, nets as nat)[k],
            places@,
            rows@,
        ),
{
    lemma_shown(quantities@, nets as nat);
    let which = drawn(quantities@, nets as nat);
    assert(which == nets_among(quantities@, nets as nat));
    assert(is_curve(chart.curves@[k], which[k], places@, rows@));
}

/// A chart has one curve for each shown net, in order and under its label: through the
/// value of that net at each place of the run. Its vertical range holds every value that
/// is drawn.
pub proof fn a_chart_draws_every_net_through_its_values(
    kind: &ChartKind,
    quantities: &Vec<Quantity>,
    nets: usize,
    places: &Vec<Real>,
    rows: &Vec<Vec<Real>>,
    chart: Chart,
    k: int,
    i: int,
)
    requires
        call_ensures(plan_chart, (kind, quantities, nets, places, rows), Ok(chart)),
        0 <= k < nets_among(quantities@, nets as nat).len(),
        0 <= i < places@.len(),
    ensures
        chart.curves@.len() == nets_among(quantities@, nets as nat).len(),
        ({
            let q = nets_among(quantities@, nets as nat)[k];
            let value = rows@[i]@[q.index as int];
            &&& chart.curves@[k].label@ == q.label@
            &&& chart.curves@[k].points@.len() == places@.len()
            &&& chart.curves@[k].points@[i] == (places@[i], value)
            &&& !value.nan() ==> chart.y_range.0.le(value) && value.le(chart.y_range.1)
        }),
{
    lemma_curve(kind, quantities, nets, places, rows, chart, k);
    let q = nets_among(quantities@, nets as nat)[k];
    assert(chart.curves@[k].points@[i].1 == rows@[i]@[q.index as int]);
}

/// The horizontal range of a chart goes from the first place of the run to the last, over
/// logarithms where the places are frequencies, and is to be widened where it does not
/// rise, but for that of time. The vertical one goes from the lowest value that is drawn to
/// the highest, and is to be widened where it does not rise.
pub proof fn a_chart_has_the_range_of_its_values(
    kind: &ChartKind,
    quantities: &Vec<Quantity>,
    nets: usize,
    places: &Vec<Real>,
    rows: &Vec<Vec<Real>>,
    r: Result<Chart, String>,
)
    requires
        call_ensures(plan_chart, (kind, quantities, nets, places, rows), r),
    ensures
        r is Ok <==> places@.len() > 0,
        r matches Ok(chart) ==> {
            &&& chart.x_range.0 == places@[0]
            &&& chart.x_range.1 == places@[places@.len() - 1]
            &&& chart.log_x <==> kind is Magnitude || kind is Phase || kind is Noise
            &&& chart.widen_x <==> !(kind is Transient) && !places@[0].lt(
                places@[places@.len() - 1],
            )
            &&& chart.widen_y <==> chart.y_range.1.le(chart.y_range.0)
            &&& is_drawn(chart, chart.y_range.0) || chart.y_range.0.bits == INFINITY
            &&& is_drawn(chart, chart.y_range.1) || chart.y_range.1.bits == INFINITY + SIGN
        },
{
}

/// Six nets in a row have different colours.
pub proof fn neighbouring_curves_differ_in_colour(
    kind: &ChartKind,
    quantities: &Vec<Quantity>,
    nets: usize,
    places: &Vec<Real>,
    rows: &Vec<Vec<Real>>,
    chart: Chart,
    a: int,
    b: int,
)
    requires
        call_ensures(plan_chart, (kind, quantities, nets, places, rows), Ok(chart)),
        0 <= a < nets_among(quantities@, nets as nat).len(),
        0 <= b < nets_among(quantities@, nets as nat).len(),
        nets_among(quantities@, nets as nat)[a].index < nets_among(
            quantities@,
            nets as nat,
        )[b].index < nets_among(quantities@, nets as nat)[a].index + 6,
    ensures
        chart.curves@[a].color != chart.curves@[b].color,
        chart.curves@[a].color < 6,
{
    lemma_curve(kind, quantities, nets, places, rows, chart, a);
    lemma_curve(kind, quantities, nets, places, rows, chart, b);
    let (x, y) = (
        nets_among(quantities@, nets as nat)[a].index as int,
        nets_among(quantities@, nets as nat)[b].index as int,
    );
    assert(x % 6 != y % 6);
}

/// Some curve goes through this value.
pub open spec fn is_drawn(chart: Chart, value: Real) -> bool {
    exists|k: int, i: int|
        0 <= k < chart.curves@.len() && 0 <= i < chart.curves@[k].points@.len()
            && #[trigger] chart.curves@[k].points@[i].1 == value
}

// ---- breakdowns -----------------------------------------------------------

/// A breakdown lists every device once, a louder one before a softer one, and equally
/// loud ones in their own order.
pub proof fn a_breakdown_lists_everyone_by_loudness(powers: &Vec<Real>, r: Vec<usize>)
    requires
        call_ensures(loudest_first, (powers,), r),
    ensures
        r@.len() == powers@.len(),
        forall|k: int| 0 <= k < powers@.len() ==> #[trigger] r@.contains(k as usize),
        forall|i: int, j: int|
            0 <= i < j < r@.len() ==> {
                let (a, b) = (powers@[(#[trigger] r@[i]) as int], powers@[(#[trigger] r@[j]) as int]);
                &&& b.total_rank() <= a.total_rank()
                &&& a == b ==> r@[i] < r@[j]
            },
{
    let order = r@;
    let n = powers@.len() as int;
    assert(powers.len() == n);
    let places = order.map_values(|k: usize| k as int);
    assert(places.no_duplicates()) by {
        assert forall|i: int, j: int| 0 <= i < places.len() && 0 <= j < places.len() && i
            != j implies places[i] != places[j] by {
            assert(order[i] != order[j]);
        }
    }
    places.unique_seq_to_set();
    let all = vstd::set_lib::set_int_range(0, n);
    vstd::set_lib::lemma_int_range(0, n);
    assert(places.to_set().subset_of(all)) by {
        assert forall|k: int| places.to_set().contains(k) implies all.contains(k) by {
            let i = choose|i: int| 0 <= i < places.len() && places[i] == k;
            assert(order[i] < powers@.len());
        }
    }
    vstd::set_lib::lemma_subset_equality(places.to_set(), all);
    assert forall|k: int| 0 <= k < n implies #[trigger] order.contains(k as usize) by {
        assert(all.contains(k));
        assert(places.to_set().contains(k));
        let i = choose|i: int| 0 <= i < places.len() && places[i] == k;
        assert(order[i] == k as usize);
    }
    assert forall|i: int, j: int| 0 <= i < j < r@.len() implies {
        let (a, b) = (powers@[(#[trigger] r@[i]) as int], powers@[(#[trigger] r@[j]) as int]);
        &&& b.total_rank() <= a.total_rank()
        &&& a == b ==> r@[i] < r@[j]
    } by {
        assert(comes_before(powers@, r@[i], r@[j]));
    }
}

/// A noise report names its output by the first quantity of the name on the card, with the
/// unit of that quantity, and gives the source the unit of the first potential at the
/// first terminal of the first device of its name.
pub proof fn a_noise_report_takes_its_units_from_the_circuit(
    net: &Netlist,
    quantities: &Vec<Quantity>,
    r: NoiseUnits,
    k: int,
    d: int,
    p: int,
)
    requires
        call_ensures(noise_units, (net, quantities), r),
        net.noise is Some,
        0 <= k < quantities@.len(),
        quantities@[k].name@ == net.noise->0.output@,
        forall|j: int|
            0 <= j < k ==> (#[trigger] quantities@[j]).name@ != net.noise->0.output@,
        is_device_at(net.devices@, net.noise->0.source@, d),
        net.devices@[d].terminals@.len() > 0,
        0 <= p < quantities@.len(),
        quantities@[p].is_potential,
        quantities@[p].index == net.devices@[d].terminals@[0],
        forall|j: int|
            0 <= j < p ==> !((#[trigger] quantities@[j]).is_potential && quantities@[j].index
                == net.devices@[d].terminals@[0]),
    ensures
        r.output@ == quantities@[k].label@,
        r.source@ == net.noise->0.source@,
        is_bracketed(quantities@[k].unit@, r.unit@),
        is_bracketed(quantities@[p].unit@, r.source_unit@),
{
    let all = quantities@;
    let output = net.noise->0.output@;
    let holds = is_quantity_named(output);
    lemma_first_where_holds(all, holds);
    let c = named_quantity(all, output);
    assert(holds(all[k]));
    assert(c == k) by {
        if c < k {
            assert(holds(all[c]));
            assert(all[c].name@ != output);
        }
        if k < c {
            assert(!holds(all[k]));
        }
    }
    let row = net.devices@[d].terminals@[0];
    let there = is_potential_at(row);
    lemma_first_where_holds(all, there);
    let e = potential_at(all, row);
    assert(there(all[p]));
    assert(e == p) by {
        if e < p {
            assert(there(all[e]));
            assert(!(all[e].is_potential && all[e].index == row));
        }
        if p < e {
            assert(!there(all[p]));
        }
    }
    crate::solve_laws::lemma_device_is(net.devices@, net.noise->0.source@, d);
}

/// A noise report whose output no quantity names calls it a voltage, and gives a source
/// without a place of its own the unit of the output.
pub proof fn a_noise_report_falls_back_to_volts(
    net: &Netlist,
    quantities: &Vec<Quantity>,
    r: NoiseUnits,
)
    requires
        call_ensures(noise_units, (net, quantities), r),
        net.noise is Some,
    ensures
        (forall|j: int|
            0 <= j < quantities@.len() ==> (#[trigger] quantities@[j]).name@
                != net.noise->0.output@) ==> r.output@ == "V("@ + net.noise->0.output@ + ")"@
            && is_bracketed("V"@, r.unit@),
        !is_in_deck(net.devices@, net.noise->0.source@) ==> r.source_unit@ == r.unit@,
{
    let all = quantities@;
    let output = net.noise->0.output@;
    let holds = is_quantity_named(output);
    lemma_first_where_holds(all, holds);
    let c = named_quantity(all, output);
    if c < all.len() {
        assert(holds(all[c]));
        assert(all[c].name@ == output);
    }
    crate::solve_laws::lemma_device_absent(net.devices@, net.noise->0.source@);
}

/// The text is the unit, in brackets exactly if it is made of several.
pub open spec fn is_bracketed(unit: Seq<char>, text: Seq<char>) -> bool {
    &&& (unit.contains('/') || unit.contains('*') || unit.contains('-') || unit.contains(' ')) ==> text
        == "("@ + unit + ")"@
    &&& !(unit.contains('/') || unit.contains('*') || unit.contains('-') || unit.contains(' '))
        ==> text == unit
}

} // verus!
