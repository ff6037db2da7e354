//! Reportable quantities: the labelled entries of the solution vector.
use crate::netlist::NodeDecl;
use crate::number::Real;
use crate::text::{
    decimal, decimal_text, eq_ignoring_case, has_char, is_sorting_of, join, join_texts,
    replace_all, replaced, same_ignoring_case, sorted_texts, texts, trim, trimmed,
};
use vstd::prelude::*;

verus! {

/// The encoding of the magnitude from which on a potential is printed in fixed
/// point: one thousandth.
pub const FIXED_POINT_FLOOR: u64 = 0x3f50_624d_d2f1_a9fc;

/// One labelled entry of the solution vector.
#[derive(Clone, Debug, PartialEq, Eq)]
pub struct Quantity {
    /// How the quantity is written, access function and all: `V(in)`, `I(V1)`.
    pub label: String,
    /// The unit to print after a value, or nothing where none is declared.
    pub unit: String,
    /// The place in the solution vector.
    pub index: usize,
    /// The bare name inside the access function: `in`, `V1`, `M1.shaft`.
    pub name: String,
    /// Whether this is the potential of a node rather than a flow or an auxiliary row.
    pub is_potential: bool,
}

/// What a [`Quantity`] says.
#[verifier::ext_equal]
pub struct QuantityView {
    pub label: Seq<char>,
    pub unit: Seq<char>,
    pub index: usize,
    pub name: Seq<char>,
    pub is_potential: bool,
}

impl View for Quantity {
    type V = QuantityView;

    open spec fn view(&self) -> QuantityView {
        QuantityView {
            label: self.label@,
            unit: self.unit@,
            index: self.index,
            name: self.name@,
            is_potential: self.is_potential,
        }
    }
}

/// What a sequence of quantities says.
pub open spec fn views(items: Seq<Quantity>) -> Seq<QuantityView> {
    items.map_values(|q: Quantity| q@)
}

/// How a value of a quantity is spelled.
#[derive(Clone, Copy, Debug, PartialEq, Eq, Structural)]
pub enum Notation {
    /// Six decimals: `0.500000`.
    Fixed,
    /// Six decimals and an exponent: `1.550500e-6`.
    Scientific,
}

/// A potential is spelled in fixed point where six decimals carry at least three
/// significant digits, and where it is exactly zero.
pub open spec fn notation_of(is_potential: bool, value: Real) -> Notation {
    if is_potential && !value.nan() && (value.magnitude() == 0 || value.magnitude()
        >= FIXED_POINT_FLOOR) {
        Notation::Fixed
    } else {
        Notation::Scientific
    }
}

/// A unit as it follows a number: with a space before it, or not at all.
pub open spec fn unit_suffix(unit: Seq<char>) -> Seq<char> {
    if unit.len() == 0 {
        Seq::empty()
    } else {
        " "@ + unit
    }
}

/// The unit with a space before it, or nothing where there is no unit.
pub fn spaced_unit(unit: &str) -> (r: String)
    ensures
        r@ == unit_suffix(unit@),
{
    if unit.is_empty() {
        String::new()
    } else {
        let mut r = " ".to_owned();
        r.append(unit);
        r
    }
}

impl Quantity {
    /// The same quantity.
    pub fn copy(&self) -> (r: Quantity)
        ensures
            r == *self,
    {
        Quantity {
            label: self.label.clone(),
            unit: self.unit.clone(),
            index: self.index,
            name: self.name.clone(),
            is_potential: self.is_potential,
        }
    }

    /// How a value of this quantity is spelled.
    pub fn notation(&self, value: Real) -> (r: Notation)
        ensures
            r == notation_of(self.is_potential, value),
    {
        let zero = value.bits == 0 || value.bits == crate::number::SIGN;
        let large = value.bits % crate::number::SIGN >= FIXED_POINT_FLOOR;
        if self.is_potential && !value.is_nan() && (zero || large) {
            Notation::Fixed
        } else {
            Notation::Scientific
        }
    }

    /// One value of this quantity as a line of a report: `V(in) = 0.500000 V`.
    /// `digits` spells the value in its [`Notation`].
    pub fn render(&self, digits: &str) -> (r: String)
        ensures
            r@ == self.label@ + " = "@ + digits@ + unit_suffix(self.unit@),
    {
        let mut r = self.label.clone();
        r.append(" = ");
        r.append(digits);
        r.append(spaced_unit(self.unit.as_str()).as_str());
        r
    }

    /// The same as a column of a table: `V(in)=0.500000 V`.
    pub fn render_column(&self, digits: &str) -> (r: String)
        ensures
            r@ == replace_all(
                self.label@ + " = "@ + digits@ + unit_suffix(self.unit@),
                " = "@,
                "="@,
            ),
    {
        proof {
            reveal_strlit(" = ");
        }
        replaced(self.render(digits).as_str(), " = ", "=")
    }
}

// ---- units and labels -----------------------------------------------------

/// A unit made of several needs brackets before it carries an exponent.
pub open spec fn is_compound(unit: Seq<char>) -> bool {
    unit.contains('/') || unit.contains('*') || unit.contains('-') || unit.contains(' ')
}

/// The unit, in brackets where it is made of several.
pub open spec fn bracketed(unit: Seq<char>) -> Seq<char> {
    if is_compound(unit) {
        "("@ + unit + ")"@
    } else {
        unit
    }
}

/// Brackets a compound unit so that it can carry an exponent or a denominator.
pub fn bracket_unit(unit: &str) -> (r: String)
    ensures
        r@ == bracketed(unit@),
{
    if has_char(unit, '/') || has_char(unit, '*') || has_char(unit, '-') || has_char(unit, ' ') {
        let mut r = "(".to_owned();
        r.append(unit);
        r.append(")");
        r
    } else {
        unit.to_owned()
    }
}

/// The access function of a node: what its discipline declares, else `V`.
pub open spec fn access_of(decl: Option<NodeDecl>) -> Seq<char> {
    match decl {
        Some(d) => match d.access {
            Some(a) => a@,
            None => "V"@,
        },
        None => "V"@,
    }
}

/// The units of a node: what its discipline declares, and nothing where a discipline
/// reached the node that declares none. A node that no discipline reached is electrical.
pub open spec fn units_of(decl: Option<NodeDecl>) -> Seq<char> {
    match decl {
        Some(d) => match d.units {
            Some(u) => u@,
            None => if d.access is Some {
                Seq::empty()
            } else {
                "V"@
            },
        },
        None => "V"@,
    }
}

/// The access function and the units to print for a node.
pub fn node_label(decl: &Option<NodeDecl>) -> (r: (String, String))
    ensures
        r.0@ == access_of(*decl),
        r.1@ == units_of(*decl),
{
    match decl {
        Some(d) => {
            let units = match &d.units {
                Some(u) => u.clone(),
                None => if d.access.is_some() {
                    proof {
                        reveal_strlit("");
                        assert(""@ =~= Seq::empty());
                    }
                    "".to_owned()
                } else {
                    "V".to_owned()
                },
            };
            let access = match &d.access {
                Some(a) => a.clone(),
                None => "V".to_owned(),
            };
            (access, units)
        },
        None => ("V".to_owned(), "V".to_owned()),
    }
}

/// The potential of a node, under the given name.
pub open spec fn potential_view(decl: Option<NodeDecl>, name: Seq<char>, index: usize) -> QuantityView {
    QuantityView {
        label: access_of(decl) + "("@ + name + ")"@,
        unit: units_of(decl),
        index,
        name,
        is_potential: true,
    }
}

/// The branch current of a device.
pub open spec fn current_view(name: Seq<char>, index: usize) -> QuantityView {
    QuantityView { label: "I("@ + name + ")"@, unit: "A"@, index, name, is_potential: false }
}

/// An auxiliary row that a device's model claimed, numbered within the device. Its
/// meaning is the model's own business, so it has neither access function nor unit.
pub open spec fn auxiliary_view(device: Seq<char>, k: nat, index: usize) -> QuantityView {
    let name = device + ".b"@ + decimal(k);
    QuantityView { label: name, unit: Seq::empty(), index, name, is_potential: false }
}

/// The potential of a node.
pub fn potential(decl: &Option<NodeDecl>, name: String, index: usize) -> (r: Quantity)
    ensures
        r@ == potential_view(*decl, name@, index),
{
    let (access, unit) = node_label(decl);
    let mut label = access;
    label.append("(");
    label.append(name.as_str());
    label.append(")");
    Quantity { label, unit, index, name, is_potential: true }
}

/// The branch current of a device.
pub fn branch_current(name: &String, index: usize) -> (r: Quantity)
    ensures
        r@ == current_view(name@, index),
{
    let mut label = "I(".to_owned();
    label.append(name.as_str());
    label.append(")");
    Quantity { label, unit: "A".to_owned(), index, name: name.clone(), is_potential: false }
}

/// An auxiliary row of a device.
pub fn auxiliary_row(device: &String, k: usize, index: usize) -> (r: Quantity)
    ensures
        r@ == auxiliary_view(device@, k as nat, index),
{
    let mut name = device.clone();
    name.append(".b");
    name.append(decimal_text(k as u64).as_str());
    let unit = String::new();
    assert(unit@ =~= Seq::<char>::empty());
    Quantity { label: name.clone(), unit, index, name, is_potential: false }
}

// ---- selection ------------------------------------------------------------

/// A selector names a quantity by its bare name or by its full label, whatever the
/// case of the letters and the white space around it.
pub open spec fn selects(selector: Seq<char>, q: QuantityView) -> bool {
    same_ignoring_case(q.name, trim(selector)) || same_ignoring_case(q.label, trim(selector))
}

/// Some quantity is named by the selector.
pub open spec fn names_something(all: Seq<Quantity>, selector: Seq<char>) -> bool {
    exists|i: int| 0 <= i < all.len() && selects(selector, #[trigger] all[i]@)
}

/// Some quantity stands for this place of the solution vector.
pub open spec fn has_index(items: Seq<Quantity>, index: usize) -> bool {
    exists|i: int| 0 <= i < items.len() && #[trigger] items[i].index == index
}

/// `out` with those of the first `upto` quantities added that the selector names and
/// whose place is not yet taken.
pub open spec fn selected_by(
    out: Seq<Quantity>,
    all: Seq<Quantity>,
    selector: Seq<char>,
    upto: int,
) -> Seq<Quantity>
    decreases upto,
{
    if upto <= 0 {
        out
    } else {
        let before = selected_by(out, all, selector, upto - 1);
        let q = all[upto - 1];
        if selects(selector, q@) && !has_index(before, q.index) {
            before.push(q)
        } else {
            before
        }
    }
}

/// What the selectors pick, in their order, each place of the solution vector once.
pub open spec fn selection(all: Seq<Quantity>, selectors: Seq<String>) -> Seq<Quantity>
    decreases selectors.len(),
{
    if selectors.len() == 0 {
        Seq::empty()
    } else {
        selected_by(
            selection(all, selectors.drop_last()),
            all,
            selectors.last()@,
            all.len() as int,
        )
    }
}

/// The labels of the quantities.
pub open spec fn labels(all: Seq<Quantity>) -> Seq<Seq<char>> {
    all.map_values(|q: Quantity| q.label@)
}

/// A selector that names nothing, with the labels that there are.
#[derive(Clone, Debug, PartialEq, Eq)]
pub struct UnknownQuantity {
    pub selector: String,
    pub known: Vec<String>,
}

impl UnknownQuantity {
    /// What to tell the user.
    pub fn message(&self) -> (r: String)
        ensures
            r@ == "--report names `"@ + self.selector@
                + "`, which this circuit does not compute (it has: "@ + join(
                texts(self.known@),
                ", "@,
            ) + ")"@,
    {
        let mut r = "--report names `".to_owned();
        r.append(self.selector.as_str());
        r.append("`, which this circuit does not compute (it has: ");
        r.append(join_texts(&self.known, ", ").as_str());
        r.append(")");
        r
    }
}

fn known_labels(all: &Vec<Quantity>) -> (r: Vec<String>)
    ensures
        is_sorting_of(texts(r@), labels(all@)),
{
    let mut names: Vec<String> = Vec::new();
    let mut i: usize = 0;
    while i < all.len()
        invariant
            i <= all@.len(),
            names@.len() == i,
            forall|j: int| 0 <= j < i ==> #[trigger] names@[j]@ == all@[j].label@,
        decreases all@.len() - i,
    {
        names.push(all[i].label.clone());
        i += 1;
    }
    assert(texts(names@) =~= labels(all@));
    sorted_texts(&names)
}

fn index_taken(items: &Vec<Quantity>, index: usize) -> (r: bool)
    ensures
        r == has_index(items@, index),
{
    let mut k: usize = 0;
    while k < items.len()
        invariant
            k <= items@.len(),
            forall|j: int| 0 <= j < k ==> #[trigger] items@[j].index != index,
        decreases items@.len() - k,
    {
        if items[k].index == index {
            return true;
        }
        k += 1;
    }
    false
}

/// Narrows the quantities to those that the selectors name. Without selectors it is
/// all of them. A selector that names nothing is an error: the first such one.
pub fn select_quantities(all: &Vec<Quantity>, selectors: &Vec<String>) -> (r: Result<
    Vec<Quantity>,
    UnknownQuantity,
>)
    ensures
        match r {
            Ok(out) => {
                &&& forall|i: int|
                    0 <= i < selectors@.len() ==> #[trigger] names_something(all@, selectors@[i]@)
                &&& selectors@.len() == 0 ==> out@ == all@
                &&& selectors@.len() > 0 ==> out@ == selection(all@, selectors@)
            },
            Err(e) => exists|i: int|
                {
                    &&& 0 <= i < selectors@.len()
                    &&& !(#[trigger] names_something(all@, selectors@[i]@))
                    &&& forall|j: int|
                        0 <= j < i ==> #[trigger] names_something(all@, selectors@[j]@)
                    &&& e.selector@ == trim(selectors@[i]@)
                    &&& is_sorting_of(texts(e.known@), labels(all@))
                },
        },
{
    if selectors.len() == 0 {
        let mut out: Vec<Quantity> = Vec::new();
        let mut i: usize = 0;
        while i < all.len()
            invariant
                i <= all@.len(),
                out@ =~= all@.subrange(0, i as int),
            decreases all@.len() - i,
        {
            out.push(all[i].copy());
            i += 1;
        }
        assert(out@ =~= all@);
        return Ok(out);
    }
    let mut out: Vec<Quantity> = Vec::new();
    let mut i: usize = 0;
    assert(selectors@.subrange(0, 0) =~= Seq::empty());
    while i < selectors.len()
        invariant
            i <= selectors@.len(),
            out@ == selection(all@, selectors@.subrange(0, i as int)),
            forall|j: int| 0 <= j < i ==> #[trigger] names_something(all@, selectors@[j]@),
        decreases selectors@.len() - i,
    {
        let s = trimmed(selectors[i].as_str());
        let ghost before = out@;
        let mut hit = false;
        let mut k: usize = 0;
        while k < all.len()
            invariant
                i < selectors@.len(),
                s@ == trim(selectors@[i as int]@),
                k <= all@.len(),
                hit == (exists|j: int|
                    0 <= j < k && selects(selectors@[i as int]@, #[trigger] all@[j]@)),
                out@ == selected_by(before, all@, selectors@[i as int]@, k as int),
            decreases all@.len() - k,
        {
            if eq_ignoring_case(all[k].name.as_str(), s) || eq_ignoring_case(
                all[k].label.as_str(),
                s,
            ) {
                assert(selects(selectors@[i as int]@, all@[k as int]@));
                hit = true;
                if !index_taken(&out, all[k].index) {
                    out.push(all[k].copy());
                }
            }
            k += 1;
        }
        if !hit {
            assert(!names_something(all@, selectors@[i as int]@));
            return Err(UnknownQuantity { selector: s.to_owned(), known: known_labels(all) });
        }
        assert(names_something(all@, selectors@[i as int]@));
        i += 1;
        proof {
            let upto = selectors@.subrange(0, i as int);
            assert(upto.drop_last() =~= selectors@.subrange(0, i - 1));
            assert(upto.last() == selectors@[i - 1]);
        }
    }
    assert(selectors@.subrange(0, i as int) =~= selectors@);
    Ok(out)
}

// ---- naming a row ---------------------------------------------------------

/// The text that names the row whose equation went non-finite.
pub open spec fn non_finite_text(all: Seq<Quantity>, row: usize, upto: int) -> Seq<char>
    decreases all.len() - upto,
{
    if upto < 0 || upto >= all.len() {
        "the non-finite value is in the equation of unknown #"@ + decimal(row as nat)
            + ", which no reported quantity names"@
    } else if all[upto].index == row {
        "the non-finite value is in the equation of `"@ + all[upto].label@ + "` (unknown #"@
            + decimal(row as nat) + "); look at the device(s) contributing to it"@
    } else {
        non_finite_text(all, row, upto + 1)
    }
}

/// Names the row whose equation went non-finite by the first quantity that stands
/// for it, or says that none does.
pub fn name_non_finite_row(row: usize, quantities: &Vec<Quantity>) -> (r: String)
    ensures
        r@ == non_finite_text(quantities@, row, 0),
{
    let number = decimal_text(row as u64);
    let mut i: usize = 0;
    while i < quantities.len()
        invariant
            i <= quantities@.len(),
            number@ == decimal(row as nat),
            non_finite_text(quantities@, row, 0) == non_finite_text(quantities@, row, i as int),
        decreases quantities@.len() - i,
    {
        if quantities[i].index == row {
            let mut r = "the non-finite value is in the equation of `".to_owned();
            r.append(quantities[i].label.as_str());
            r.append("` (unknown #");
            r.append(number.as_str());
            r.append("); look at the device(s) contributing to it");
            return r;
        }
        i += 1;
    }
    let mut r = "the non-finite value is in the equation of unknown #".to_owned();
    r.append(number.as_str());
    r.append(", which no reported quantity names");
    r
}

// ---- what holds of every selection ----------------------------------------

/// No two quantities stand for one place, and each is one of `all`.
pub open spec fn distinct_part_of(items: Seq<Quantity>, all: Seq<Quantity>) -> bool {
    &&& forall|i: int, j: int|
        0 <= i < j < items.len() ==> (#[trigger] items[i]).index != (#[trigger] items[j]).index
    &&& forall|i: int| 0 <= i < items.len() ==> all.contains(#[trigger] items[i])
}

proof fn lemma_selected_by(out: Seq<Quantity>, all: Seq<Quantity>, selector: Seq<char>, upto: int)
    requires
        0 <= upto <= all.len(),
        distinct_part_of(out, all),
    ensures
        ({
            let now = selected_by(out, all, selector, upto);
            &&& distinct_part_of(now, all)
            &&& forall|index: usize| #[trigger] has_index(out, index) ==> has_index(now, index)
            &&& forall|k: int|
                0 <= k < upto && selects(selector, (#[trigger] all[k])@) ==> has_index(
                    now,
                    all[k].index,
                )
            &&& (forall|k: int|
                0 <= k < upto && selects(selector, (#[trigger] all[k])@) ==> has_index(
                    out,
                    all[k].index,
                )) ==> now == out
        }),
    decreases upto,
{
    if upto > 0 {
        lemma_selected_by(out, all, selector, upto - 1);
        let before = selected_by(out, all, selector, upto - 1);
        let now = selected_by(out, all, selector, upto);
        let q = all[upto - 1];
        if selects(selector, q@) && !has_index(before, q.index) {
            assert(now[before.len() as int] == q);
            assert(all.contains(q));
            assert forall|index: usize| #[trigger] has_index(before, index) implies has_index(
                now,
                index,
            ) by {
                let i = choose|i: int| 0 <= i < before.len() && #[trigger] before[i].index == index;
                assert(now[i].index == index);
            }
            assert forall|i: int, j: int| 0 <= i < j < now.len() implies (#[trigger] now[i]).index
                != (#[trigger] now[j]).index by {
                if j < before.len() {
                    assert(before[i].index != before[j].index);
                } else {
                    assert(before[i].index != q.index);
                }
            }
            assert(has_index(now, q.index));
        }
    }
}

proof fn lemma_selection(all: Seq<Quantity>, selectors: Seq<String>)
    ensures
        distinct_part_of(selection(all, selectors), all),
        forall|s: int, k: int|
            0 <= s < selectors.len() && 0 <= k < all.len() && #[trigger] selects(
                selectors[s]@,
                all[k]@,
            ) ==> has_index(selection(all, selectors), all[k].index),
    decreases selectors.len(),
{
    if selectors.len() > 0 {
        let rest = selectors.drop_last();
        lemma_selection(all, rest);
        lemma_selected_by(
            selection(all, rest),
            all,
            selectors.last()@,
            all.len() as int,
        );
        assert forall|s: int, k: int|
            0 <= s < selectors.len() && 0 <= k < all.len() && #[trigger] selects(
                selectors[s]@,
                all[k]@,
            ) implies has_index(selection(all, selectors), all[k].index) by {
            if s < rest.len() {
                assert(selects(rest[s]@, all[k]@));
            }
        }
    }
}

/// A selection holds each place of the solution vector once, holds nothing but given
/// quantities, and leaves out no place that a selector names.
pub proof fn a_selection_is_complete_and_distinct(all: Seq<Quantity>, selectors: Seq<String>, s: int, k: int)
    requires
        0 <= s < selectors.len(),
        0 <= k < all.len(),
    ensures
        distinct_part_of(selection(all, selectors), all),
        selects(selectors[s]@, all[k]@) ==> has_index(selection(all, selectors), all[k].index),
{
    lemma_selection(all, selectors);
}

/// Naming something again changes nothing.
pub proof fn repeating_a_selector_changes_nothing(
    all: Seq<Quantity>,
    selectors: Seq<String>,
    again: String,
    s: int,
)
    requires
        0 <= s < selectors.len(),
        forall|q: QuantityView| #[trigger] selects(again@, q) ==> selects(selectors[s]@, q),
    ensures
        selection(all, selectors.push(again)) == selection(all, selectors),
{
    lemma_selection(all, selectors);
    lemma_selected_by(selection(all, selectors), all, again@, all.len() as int);
    assert(selectors.push(again).drop_last() =~= selectors);
    assert forall|k: int| 0 <= k < all.len() && selects(again@, (#[trigger] all[k])@) implies has_index(
        selection(all, selectors),
        all[k].index,
    ) by {
        assert(selects(selectors[s]@, all[k]@));
    }
}

/// What a selector adds comes behind what was there, and is named by it.
proof fn lemma_selected_behind(out: Seq<Quantity>, all: Seq<Quantity>, selector: Seq<char>, upto: int)
    requires
        0 <= upto <= all.len(),
    ensures
        ({
            let now = selected_by(out, all, selector, upto);
            &&& now.len() >= out.len()
            &&& now.take(out.len() as int) == out
            &&& forall|i: int| out.len() <= i < now.len() ==> selects(selector, (#[trigger] now[i])@)
        }),
    decreases upto,
{
    if upto > 0 {
        lemma_selected_behind(out, all, selector, upto - 1);
        assert(selected_by(out, all, selector, upto).take(out.len() as int) =~= out);
    } else {
        assert(out.take(out.len() as int) =~= out);
    }
}

/// A selection by more selectors starts with the one by fewer.
proof fn lemma_selection_grows(all: Seq<Quantity>, selectors: Seq<String>, m: int)
    requires
        0 <= m <= selectors.len(),
    ensures
        ({
            let part = selection(all, selectors.take(m));
            let whole = selection(all, selectors);
            &&& part.len() <= whole.len()
            &&& whole.take(part.len() as int) == part
        }),
    decreases selectors.len(),
{
    let part = selection(all, selectors.take(m));
    let whole = selection(all, selectors);
    if m == selectors.len() {
        assert(selectors.take(m) =~= selectors);
        assert(whole.take(part.len() as int) =~= part);
    } else {
        let rest = selectors.drop_last();
        lemma_selection_grows(all, rest, m);
        assert(rest.take(m) =~= selectors.take(m));
        lemma_selected_behind(selection(all, rest), all, selectors.last()@, all.len() as int);
        let middle = selection(all, rest);
        assert forall|i: int| 0 <= i < part.len() implies whole[i] == part[i] by {
            assert(whole.take(middle.len() as int)[i] == middle[i]);
            assert(middle.take(part.len() as int)[i] == part[i]);
        }
        assert(whole.take(part.len() as int) =~= part);
    }
}

/// The `m`-th selector picks from the selection what it picked from everything.
proof fn lemma_reselected(all: Seq<Quantity>, selectors: Seq<String>, m: int, upto: int)
    requires
        0 <= m < selectors.len(),
        0 <= upto <= selection(all, selectors).len(),
    ensures
        ({
            let whole = selection(all, selectors);
            let before = selection(all, selectors.take(m));
            let after = selection(all, selectors.take(m + 1));
            selected_by(before, whole, selectors[m]@, upto) == (if upto <= before.len() {
                before
            } else if upto <= after.len() {
                whole.take(upto)
            } else {
                after
            })
        }),
    decreases upto,
{
    let whole = selection(all, selectors);
    let before = selection(all, selectors.take(m));
    let after = selection(all, selectors.take(m + 1));
    lemma_selection_grows(all, selectors, m);
    lemma_selection_grows(all, selectors, m + 1);
    lemma_selection(all, selectors);
    lemma_selection(all, selectors.take(m + 1));
    assert(selectors.take(m + 1).drop_last() =~= selectors.take(m));
    assert(selectors.take(m + 1).last() == selectors[m]);
    lemma_selected_behind(before, all, selectors[m]@, all.len() as int);
    assert(whole.take(before.len() as int) == before);
    assert(whole.take(after.len() as int) == after);
    if upto > 0 {
        lemma_reselected(all, selectors, m, upto - 1);
        let q = whole[upto - 1];
        if upto <= before.len() {
            assert(before[upto - 1] == q);
            assert(has_index(before, q.index));
        } else if upto <= after.len() {
            assert(after[upto - 1] == q);
            let sofar = whole.take(upto - 1);
            if upto - 1 == before.len() {
                assert(sofar =~= before);
            }
            assert(!has_index(sofar, q.index)) by {
                if has_index(sofar, q.index) {
                    let i = choose|i: int| 0 <= i < sofar.len() && #[trigger] sofar[i].index == q.index;
                    assert(whole[i].index != whole[upto - 1].index);
                }
            }
            assert(sofar.push(q) =~= whole.take(upto));
        } else {
            if upto - 1 == after.len() {
                assert(whole.take(upto - 1) =~= after);
            }
            if selects(selectors[m]@, q@) {
                assert(all.contains(q));
                let k = choose|k: int| 0 <= k < all.len() && all[k] == q;
                assert(selects(selectors.take(m + 1)[m]@, all[k]@));
                assert(has_index(after, q.index));
            }
        }
    }
}

proof fn lemma_reselection(all: Seq<Quantity>, selectors: Seq<String>, m: int)
    requires
        0 <= m <= selectors.len(),
    ensures
        selection(selection(all, selectors), selectors.take(m)) == selection(
            all,
            selectors.take(m),
        ),
    decreases m,
{
    if m > 0 {
        let whole = selection(all, selectors);
        lemma_reselection(all, selectors, m - 1);
        lemma_reselected(all, selectors, m - 1, whole.len() as int);
        lemma_selection_grows(all, selectors, m - 1);
        lemma_selection_grows(all, selectors, m);
        let after = selection(all, selectors.take(m));
        assert(selectors.take(m).drop_last() =~= selectors.take(m - 1));
        lemma_selected_behind(
            selection(all, selectors.take(m - 1)),
            all,
            selectors[m - 1]@,
            all.len() as int,
        );
        if whole.len() == after.len() {
            assert(whole.take(whole.len() as int) =~= after);
        }
    }
}

/// Narrowing a list that is already narrowed by the same selectors succeeds and changes
/// nothing, where no two quantities stand for one place.
pub proof fn narrowing_again_changes_nothing(all: Seq<Quantity>, selectors: Seq<String>)
    requires
        forall|i: int, j: int|
            0 <= i < j < all.len() ==> (#[trigger] all[i]).index != (#[trigger] all[j]).index,
        forall|i: int|
            0 <= i < selectors.len() ==> #[trigger] names_something(all, selectors[i]@),
    ensures
        selection(selection(all, selectors), selectors) == selection(all, selectors),
        forall|i: int|
            0 <= i < selectors.len() ==> #[trigger] names_something(
                selection(all, selectors),
                selectors[i]@,
            ),
{
    let whole = selection(all, selectors);
    lemma_reselection(all, selectors, selectors.len() as int);
    assert(selectors.take(selectors.len() as int) =~= selectors);
    lemma_selection(all, selectors);
    assert forall|i: int| 0 <= i < selectors.len() implies #[trigger] names_something(
        whole,
        selectors[i]@,
    ) by {
        assert(names_something(all, selectors[i]@));
        let k = choose|k: int| 0 <= k < all.len() && selects(selectors[i]@, #[trigger] all[k]@);
        assert(has_index(whole, all[k].index));
        let j = choose|j: int| 0 <= j < whole.len() && #[trigger] whole[j].index == all[k].index;
        assert(all.contains(whole[j]));
        let l = choose|l: int| 0 <= l < all.len() && all[l] == whole[j];
        assert(l == k) by {
            if l < k {
                assert(all[l].index != all[k].index);
            } else if k < l {
                assert(all[k].index != all[l].index);
            }
        }
        assert(selects(selectors[i]@, whole[j]@));
    }
}

} // verus!
