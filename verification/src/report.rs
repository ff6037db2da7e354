//! The lines of a report.
use crate::netlist::{Device, Netlist, NoiseCard};
use crate::number::Real;
use crate::quantity::{
    bracket_unit, bracketed, notation_of, spaced_unit, unit_suffix, Notation, Quantity,
};
use crate::search::{first_where, lemma_first_where};
use crate::solve::{device_index, find_device};
use crate::text::{decimal, decimal_text, join, join_texts, replace_all, same_text, texts};
use vstd::prelude::*;

verus! {

// ---- quantities -----------------------------------------------------------

/// The quantities whose place is among the first `n` of the solution vector.
pub open spec fn shown(quantities: Seq<Quantity>, n: nat) -> Seq<Quantity>
    decreases quantities.len(),
{
    if quantities.len() == 0 {
        Seq::empty()
    } else if quantities.last().index < n {
        shown(quantities.drop_last(), n).push(quantities.last())
    } else {
        shown(quantities.drop_last(), n)
    }
}

/// A value of a quantity as a report writes it.
pub open spec fn rendered(q: Quantity, digits: Seq<char>) -> Seq<char> {
    q.label@ + " = "@ + digits + unit_suffix(q.unit@)
}

/// `text` is the value of the quantity as a report writes it.
pub open spec fn is_rendering<F: Fn(Notation, Real) -> String>(
    spell: F,
    q: Quantity,
    value: Real,
    text: Seq<char>,
) -> bool {
    exists|t: String| #[trigger]
        call_ensures(spell, (notation_of(q.is_potential, value), value), t) && text == rendered(
            q,
            t@,
        )
}

/// `text` is the value of the quantity as a table writes it.
pub open spec fn is_column<F: Fn(Notation, Real) -> String>(
    spell: F,
    q: Quantity,
    value: Real,
    text: Seq<char>,
) -> bool {
    exists|t: String| #[trigger]
        call_ensures(spell, (notation_of(q.is_potential, value), value), t) && text == replace_all(
            rendered(q, t@),
            " = "@,
            "="@,
        )
}

/// The quantities are those that are shown of a solution vector, each with the value
/// at its place.
pub open spec fn columns_match<F: Fn(Notation, Real) -> String>(
    spell: F,
    quantities: Seq<Quantity>,
    x: Seq<Real>,
    cols: Seq<Seq<char>>,
) -> bool {
    let which = shown(quantities, x.len());
    &&& cols.len() == which.len()
    &&& forall|k: int|
        0 <= k < cols.len() ==> is_column(
            spell,
            which[k],
            x[which[k].index as int],
            #[trigger] cols[k],
        )
}

/// The columns of one row of a table. `spell` spells a number.
pub fn columns<F: Fn(Notation, Real) -> String>(
    quantities: &Vec<Quantity>,
    x: &Vec<Real>,
    spell: &F,
) -> (r: Vec<String>)
    requires
        forall|n: Notation, v: Real| #[trigger] call_requires(*spell, (n, v)),
    ensures
        columns_match(*spell, quantities@, x@, texts(r@)),
{
    let mut r: Vec<String> = Vec::new();
    let mut i: usize = 0;
    assert(quantities@.subrange(0, 0) =~= Seq::empty());
    while i < quantities.len()
        invariant
            forall|n: Notation, v: Real| #[trigger] call_requires(*spell, (n, v)),
            i <= quantities@.len(),
            columns_match(*spell, quantities@.subrange(0, i as int), x@, texts(r@)),
        decreases quantities@.len() - i,
    {
        let q = &quantities[i];
        let ghost before = shown(quantities@.subrange(0, i as int), x@.len());
        let ghost cols = texts(r@);
        proof {
            let upto = quantities@.subrange(0, i + 1);
            assert(upto.drop_last() =~= quantities@.subrange(0, i as int));
            assert(upto.last() == *q);
        }
        if q.index < x.len() {
            let v = x[q.index];
            let digits = spell(q.notation(v), v);
            let text = q.render_column(digits.as_str());
            assert(is_column(*spell, *q, v, text@));
            r.push(text);
            assert(texts(r@) =~= cols.push(text@));
        }
        i += 1;
    }
    assert(quantities@.subrange(0, i as int) =~= quantities@);
    r
}

/// The lines about an operating point. `spell` spells a number.
pub fn report<F: Fn(Notation, Real) -> String>(
    quantities: &Vec<Quantity>,
    x: &Vec<Real>,
    spell: &F,
) -> (r: Vec<String>)
    requires
        forall|n: Notation, v: Real| #[trigger] call_requires(*spell, (n, v)),
    ensures
        r@.len() == shown(quantities@, x@.len()).len() + 1,
        r@[0]@ == "DC operating point:"@,
        forall|k: int|
            0 < k < r@.len() ==> is_indented_rendering(
                *spell,
                shown(quantities@, x@.len())[k - 1],
                x@,
                (#[trigger] r@[k])@,
            ),
{
    let mut r: Vec<String> = Vec::new();
    r.push("DC operating point:".to_owned());
    let mut i: usize = 0;
    assert(quantities@.subrange(0, 0) =~= Seq::empty());
    while i < quantities.len()
        invariant
            forall|n: Notation, v: Real| #[trigger] call_requires(*spell, (n, v)),
            i <= quantities@.len(),
            r@.len() == shown(quantities@.subrange(0, i as int), x@.len()).len() + 1,
            r@[0]@ == "DC operating point:"@,
            forall|k: int|
                0 < k < r@.len() ==> is_indented_rendering(
                    *spell,
                    shown(quantities@.subrange(0, i as int), x@.len())[k - 1],
                    x@,
                    (#[trigger] r@[k])@,
                ),
        decreases quantities@.len() - i,
    {
        let q = &quantities[i];
        proof {
            let upto = quantities@.subrange(0, i + 1);
            assert(upto.drop_last() =~= quantities@.subrange(0, i as int));
            assert(upto.last() == *q);
        }
        if q.index < x.len() {
            let v = x[q.index];
            let digits = spell(q.notation(v), v);
            let text = q.render(digits.as_str());
            assert(is_rendering(*spell, *q, v, text@));
            let mut line = "  ".to_owned();
            line.append(text.as_str());
            assert(is_indented_rendering(*spell, *q, x@, line@));
            r.push(line);
        }
        i += 1;
    }
    assert(quantities@.subrange(0, i as int) =~= quantities@);
    r
}

/// `line` is the value of the quantity as a report writes it, indented.
pub open spec fn is_indented_rendering<F: Fn(Notation, Real) -> String>(
    spell: F,
    q: Quantity,
    x: Seq<Real>,
    line: Seq<char>,
) -> bool {
    exists|text: Seq<char>| #[trigger]
        is_rendering(spell, q, x[q.index as int], text) && line == "  "@ + text
}

/// The line about one point of a sweep. `value` spells the swept value.
pub fn sweep_line<F: Fn(Notation, Real) -> String>(
    source: &str,
    value: &str,
    quantities: &Vec<Quantity>,
    x: &Vec<Real>,
    spell: &F,
) -> (r: String)
    requires
        forall|n: Notation, v: Real| #[trigger] call_requires(*spell, (n, v)),
    ensures
        exists|cols: Seq<Seq<char>>| #[trigger]
            columns_match(*spell, quantities@, x@, cols) && r@ == "  "@ + source@ + "="@ + value@
                + ":"@ + each_after_space(cols),
{
    let cols = columns(quantities, x, spell);
    let mut r = "  ".to_owned();
    r.append(source);
    r.append("=");
    r.append(value);
    r.append(":");
    let ghost head = r@;
    let mut i: usize = 0;
    assert(texts(cols@).subrange(0, 0) =~= Seq::empty());
    assert(r@ =~= head + each_after_space(texts(cols@).subrange(0, 0)));
    while i < cols.len()
        invariant
            i <= cols@.len(),
            r@ == head + each_after_space(texts(cols@).subrange(0, i as int)),
        decreases cols@.len() - i,
    {
        r.append(" ");
        r.append(cols[i].as_str());
        i += 1;
        proof {
            let upto = texts(cols@).subrange(0, i as int);
            assert(upto.drop_last() =~= texts(cols@).subrange(0, i - 1));
            assert(upto.last() == cols@[i - 1]@);
            assert(r@ =~= head + each_after_space(upto));
        }
    }
    assert(texts(cols@).subrange(0, i as int) =~= texts(cols@));
    r
}

/// The texts one after the other, each after a space.
pub open spec fn each_after_space(items: Seq<Seq<char>>) -> Seq<char>
    decreases items.len(),
{
    if items.len() == 0 {
        Seq::empty()
    } else {
        each_after_space(items.drop_last()) + " "@ + items.last()
    }
}

/// The heading of a sweep. The numbers come spelled.
pub fn sweep_heading(source: &str, start: &str, stop: &str, step: &str, points: usize) -> (r: String)
    ensures
        r@ == "DC sweep "@ + source@ + " from "@ + start@ + " to "@ + stop@ + " step "@ + step@
            + " ("@ + decimal(points as nat) + " points):"@,
{
    let mut r = "DC sweep ".to_owned();
    r.append(source);
    r.append(" from ");
    r.append(start);
    r.append(" to ");
    r.append(stop);
    r.append(" step ");
    r.append(step);
    r.append(" (");
    r.append(decimal_text(points as u64).as_str());
    r.append(" points):");
    r
}

/// The heading of a transient run. The end time comes spelled.
pub fn transient_heading(points: usize, end: &str) -> (r: String)
    ensures
        r@ == "Transient analysis ("@ + decimal(points as nat) + " points, t=0 to t="@ + end@
            + "s):"@,
{
    let mut r = "Transient analysis (".to_owned();
    r.append(decimal_text(points as u64).as_str());
    r.append(" points, t=0 to t=");
    r.append(end);
    r.append("s):");
    r
}

/// The line about one timepoint. `time` spells the time.
pub fn transient_line<F: Fn(Notation, Real) -> String>(
    time: &str,
    quantities: &Vec<Quantity>,
    x: &Vec<Real>,
    spell: &F,
) -> (r: String)
    requires
        forall|n: Notation, v: Real| #[trigger] call_requires(*spell, (n, v)),
    ensures
        exists|cols: Seq<Seq<char>>| #[trigger]
            columns_match(*spell, quantities@, x@, cols) && r@ == "  t="@ + time@ + "s  "@ + join(
                cols,
                "  "@,
            ),
{
    let cols = columns(quantities, x, spell);
    let mut r = "  t=".to_owned();
    r.append(time);
    r.append("s  ");
    r.append(join_texts(&cols, "  ").as_str());
    r
}

/// The heading of an AC sweep. The frequencies come spelled.
pub fn ac_heading(points: usize, first: &str, last: &str) -> (r: String)
    ensures
        r@ == "AC analysis ("@ + decimal(points as nat) + " point(s), f="@ + first@ + " to "@
            + last@ + " Hz):"@,
{
    let mut r = "AC analysis (".to_owned();
    r.append(decimal_text(points as u64).as_str());
    r.append(" point(s), f=");
    r.append(first);
    r.append(" to ");
    r.append(last);
    r.append(" Hz):");
    r
}

/// `text` is the response of the quantity: its magnitude with the quantity's unit,
/// then its phase in degrees.
pub open spec fn is_phasor_column<F: Fn((Real, Real)) -> (String, String)>(
    spell: F,
    q: Quantity,
    z: (Real, Real),
    text: Seq<char>,
) -> bool {
    exists|t: (String, String)| #[trigger]
        call_ensures(spell, (z,), t) && text == q.label@ + "="@ + t.0@ + unit_suffix(q.unit@)
            + "∠"@ + t.1@ + "°"@
}

/// The shown quantities of a complex solution vector, each with its response.
pub open spec fn phasor_columns_match<F: Fn((Real, Real)) -> (String, String)>(
    spell: F,
    quantities: Seq<Quantity>,
    x: Seq<(Real, Real)>,
    cols: Seq<Seq<char>>,
) -> bool {
    let which = shown(quantities, x.len());
    &&& cols.len() == which.len()
    &&& forall|k: int|
        0 <= k < cols.len() ==> is_phasor_column(
            spell,
            which[k],
            x[which[k].index as int],
            #[trigger] cols[k],
        )
}

/// The line about one frequency. `frequency` spells the frequency, `spell` the
/// magnitude and the phase of a response.
pub fn ac_line<F: Fn((Real, Real)) -> (String, String)>(
    frequency: &str,
    quantities: &Vec<Quantity>,
    x: &Vec<(Real, Real)>,
    spell: &F,
) -> (r: String)
    requires
        forall|z: (Real, Real)| #[trigger] call_requires(*spell, (z,)),
    ensures
        exists|cols: Seq<Seq<char>>| #[trigger]
            phasor_columns_match(*spell, quantities@, x@, cols) && r@ == "  f="@ + frequency@
                + "Hz  "@ + join(cols, "  "@),
{
    let mut cols: Vec<String> = Vec::new();
    let mut i: usize = 0;
    assert(quantities@.subrange(0, 0) =~= Seq::empty());
    while i < quantities.len()
        invariant
            forall|z: (Real, Real)| #[trigger] call_requires(*spell, (z,)),
            i <= quantities@.len(),
            phasor_columns_match(*spell, quantities@.subrange(0, i as int), x@, texts(cols@)),
        decreases quantities@.len() - i,
    {
        let q = &quantities[i];
        let ghost before = texts(cols@);
        proof {
            let upto = quantities@.subrange(0, i + 1);
            assert(upto.drop_last() =~= quantities@.subrange(0, i as int));
            assert(upto.last() == *q);
        }
        if q.index < x.len() {
            let z = x[q.index];
            let t = spell(z);
            let mut text = q.label.clone();
            text.append("=");
            text.append(t.0.as_str());
            text.append(spaced_unit(q.unit.as_str()).as_str());
            text.append("∠");
            text.append(t.1.as_str());
            text.append("°");
            assert(is_phasor_column(*spell, *q, z, text@));
            cols.push(text);
            assert(texts(cols@) =~= before.push(text@));
        }
        i += 1;
    }
    assert(quantities@.subrange(0, i as int) =~= quantities@);
    let mut r = "  f=".to_owned();
    r.append(frequency);
    r.append("Hz  ");
    r.append(join_texts(&cols, "  ").as_str());
    r
}

// ---- noise ----------------------------------------------------------------

/// What a noise report calls its output and its source, and their units.
#[derive(Clone, Debug, PartialEq, Eq)]
pub struct NoiseUnits {
    pub output: String,
    pub source: String,
    pub unit: String,
    pub source_unit: String,
}

/// Being a quantity of this name.
pub open spec fn is_quantity_named(name: Seq<char>) -> spec_fn(Quantity) -> bool {
    |q: Quantity| q.name@ == name
}

/// The place of the first quantity of this name.
pub open spec fn named_quantity(quantities: Seq<Quantity>, name: Seq<char>) -> int {
    first_where(quantities, is_quantity_named(name))
}

/// Being the potential at this unknown.
pub open spec fn is_potential_at(row: usize) -> spec_fn(Quantity) -> bool {
    |q: Quantity| q.index == row && q.is_potential
}

/// The place of the first potential at this unknown.
pub open spec fn potential_at(quantities: Seq<Quantity>, row: usize) -> int {
    first_where(quantities, is_potential_at(row))
}

/// The net that the card observes.
pub open spec fn observed(noise: Option<NoiseCard>) -> Seq<char> {
    match noise {
        Some(card) => card.output@,
        None => "?"@,
    }
}

/// The source that the card refers to.
pub open spec fn referred(noise: Option<NoiseCard>) -> Seq<char> {
    match noise {
        Some(card) => card.source@,
        None => "?"@,
    }
}

/// The unit of the output: that of its own quantity, in brackets where it is made of
/// several; volts where no quantity has its name.
pub open spec fn output_unit(quantities: Seq<Quantity>, output: Seq<char>) -> Seq<char> {
    let k = named_quantity(quantities, output);
    if k < quantities.len() {
        bracketed(quantities[k].unit@)
    } else {
        bracketed("V"@)
    }
}

/// The unit of the source: that of the potential at its first terminal, else that of
/// the output.
pub open spec fn input_unit(
    devices: Seq<Device>,
    quantities: Seq<Quantity>,
    source: Seq<char>,
    output: Seq<char>,
) -> Seq<char> {
    let d = device_index(devices, source);
    if d < devices.len() && devices[d].terminals@.len() > 0 && potential_at(
        quantities,
        devices[d].terminals@[0],
    ) < quantities.len() {
        bracketed(quantities[potential_at(quantities, devices[d].terminals@[0])].unit@)
    } else {
        output_unit(quantities, output)
    }
}

/// What a noise report calls its output and its source.
pub fn noise_units(net: &Netlist, quantities: &Vec<Quantity>) -> (r: NoiseUnits)
    ensures
        ({
            let output = observed(net.noise);
            let k = named_quantity(quantities@, output);
            &&& r.output@ == (if k < quantities@.len() {
                quantities@[k].label@
            } else {
                "V("@ + output + ")"@
            })
            &&& r.source@ == referred(net.noise)
            &&& r.unit@ == output_unit(quantities@, output)
            &&& r.source_unit@ == input_unit(
                net.devices@,
                quantities@,
                referred(net.noise),
                output,
            )
        }),
{
    let (output, source) = match &net.noise {
        Some(card) => (card.output.clone(), card.source.clone()),
        None => ("?".to_owned(), "?".to_owned()),
    };
    let mut k: usize = 0;
    while k < quantities.len() && !same_text(quantities[k].name.as_str(), output.as_str())
        invariant
            k <= quantities@.len(),
            forall|j: int| 0 <= j < k ==> (#[trigger] quantities@[j]).name@ != output@,
        decreases quantities@.len() - k,
    {
        k += 1;
    }
    proof {
        lemma_first_where(quantities@, is_quantity_named(output@), k as int);
    }
    let (label, unit) = if k < quantities.len() {
        (quantities[k].label.clone(), bracket_unit(quantities[k].unit.as_str()))
    } else {
        let mut label = "V(".to_owned();
        label.append(output.as_str());
        label.append(")");
        (label, bracket_unit("V"))
    };
    let mut source_unit = unit.clone();
    let d = find_device(&net.devices, source.as_str());
    if d < net.devices.len() && net.devices[d].terminals.len() > 0 {
        let row = net.devices[d].terminals[0];
        let mut p: usize = 0;
        while p < quantities.len() && !(quantities[p].index == row && quantities[p].is_potential)
            invariant
                p <= quantities@.len(),
                forall|j: int|
                    0 <= j < p ==> !((#[trigger] quantities@[j]).index == row
                        && quantities@[j].is_potential),
            decreases quantities@.len() - p,
        {
            p += 1;
        }
        proof {
            lemma_first_where(quantities@, is_potential_at(row), p as int);
        }
        if p < quantities.len() {
            source_unit = bracket_unit(quantities[p].unit.as_str());
        }
    }
    NoiseUnits { output: label, source, unit, source_unit }
}

/// One frequency of a noise report, its numbers spelled: the density of the power,
/// that of the amplitude, and the density referred to the source where there is one.
#[derive(Clone, Debug, PartialEq, Eq)]
pub struct NoiseRow {
    pub frequency: String,
    pub power: String,
    pub amplitude: String,
    pub input: Option<String>,
}

/// One device of the breakdown, its numbers spelled.
#[derive(Clone, Debug, PartialEq, Eq)]
pub struct NoiseShare {
    pub name: String,
    pub rms: String,
    pub percent: String,
}

/// A noise report, its numbers spelled.
#[derive(Clone, Debug, PartialEq, Eq)]
pub struct NoiseReport {
    pub first: String,
    pub last: String,
    pub rows: Vec<NoiseRow>,
    pub total: String,
    /// The total referred to the source, where there is one.
    pub input_total: Option<String>,
    /// The devices, the loudest first.
    pub shares: Vec<NoiseShare>,
}

/// The line about one frequency.
pub open spec fn noise_row_text(u: NoiseUnits, row: NoiseRow) -> Seq<char> {
    "  f="@ + row.frequency@ + "Hz  S="@ + row.power@ + " "@ + u.unit@ + "^2/Hz  ("@
        + row.amplitude@ + " "@ + u.unit@ + "/sqrt(Hz))"@ + (match row.input {
        Some(input) => "  Sin="@ + input@ + " "@ + u.source_unit@ + "^2/Hz"@,
        None => Seq::empty(),
    })
}

/// A name with spaces after it, up to eight characters.
pub open spec fn padded(name: Seq<char>) -> Seq<char> {
    if name.len() >= 8 {
        name
    } else {
        name + Seq::new((8 - name.len()) as nat, |i: int| ' ')
    }
}

/// The line about one device.
pub open spec fn noise_share_text(u: NoiseUnits, share: NoiseShare) -> Seq<char> {
    "    "@ + padded(share.name@) + " "@ + share.rms@ + " "@ + u.unit@ + " rms  ("@
        + share.percent@ + "%)"@
}

/// The lines of a noise report.
pub open spec fn noise_lines(u: NoiseUnits, report: NoiseReport) -> Seq<Seq<char>> {
    let heading = seq![
        "Noise analysis at "@ + u.output@ + " ("@ + decimal(report.rows@.len()) + " point(s), f="@
            + report.first@ + " to "@ + report.last@ + " Hz):"@,
    ];
    let rows = report.rows@.map_values(|row: NoiseRow| noise_row_text(u, row));
    let total = seq!["  total integrated output noise = "@ + report.total@ + " "@ + u.unit@ + " rms"@];
    let input = match report.input_total {
        Some(t) => seq![
            "  total integrated input-referred noise (at "@ + u.source@ + ") = "@ + t@ + " "@
                + u.source_unit@ + " rms"@,
        ],
        None => Seq::empty(),
    };
    let shares = if report.shares@.len() == 0 {
        Seq::empty()
    } else {
        seq!["  per-device contribution to the integrated output noise:"@]
            + report.shares@.map_values(|s: NoiseShare| noise_share_text(u, s))
    };
    heading + rows + total + input + shares
}

fn pad(name: &str) -> (r: String)
    ensures
        r@ == padded(name@),
{
    let mut r = name.to_owned();
    let mut n: usize = name.unicode_len();
    proof {
        reveal_strlit(" ");
    }
    assert(n < 8 ==> r@ =~= name@ + Seq::new((n - name@.len()) as nat, |i: int| ' '));
    while n < 8
        invariant
            name@.len() <= n,
            n <= 8 || n == name@.len(),
            " "@ =~= seq![' '],
            r@ =~= name@ + Seq::new((n - name@.len()) as nat, |i: int| ' '),
        decreases 8 - n,
    {
        r.append(" ");
        n += 1;
    }
    assert(r@ =~= padded(name@));
    r
}

fn noise_row_line(u: &NoiseUnits, row: &NoiseRow) -> (r: String)
    ensures
        r@ == noise_row_text(*u, *row),
{
    let mut r = "  f=".to_owned();
    r.append(row.frequency.as_str());
    r.append("Hz  S=");
    r.append(row.power.as_str());
    r.append(" ");
    r.append(u.unit.as_str());
    r.append("^2/Hz  (");
    r.append(row.amplitude.as_str());
    r.append(" ");
    r.append(u.unit.as_str());
    r.append("/sqrt(Hz))");
    let mut referred = String::new();
    if let Some(input) = &row.input {
        referred = "  Sin=".to_owned();
        referred.append(input.as_str());
        referred.append(" ");
        referred.append(u.source_unit.as_str());
        referred.append("^2/Hz");
    }
    r.append(referred.as_str());
    r
}

fn noise_share_line(u: &NoiseUnits, share: &NoiseShare) -> (r: String)
    ensures
        r@ == noise_share_text(*u, *share),
{
    let mut r = "    ".to_owned();
    r.append(pad(share.name.as_str()).as_str());
    r.append(" ");
    r.append(share.rms.as_str());
    r.append(" ");
    r.append(u.unit.as_str());
    r.append(" rms  (");
    r.append(share.percent.as_str());
    r.append("%)");
    r
}

/// The lines of a noise report.
pub fn report_noise(u: &NoiseUnits, report: &NoiseReport) -> (r: Vec<String>)
    ensures
        texts(r@) == noise_lines(*u, *report),
{
    let mut r: Vec<String> = Vec::new();
    let ghost goal = noise_lines(*u, *report);
    let ghost n = report.rows@.len() as int;

    let mut heading = "Noise analysis at ".to_owned();
    heading.append(u.output.as_str());
    heading.append(" (");
    heading.append(decimal_text(report.rows.len() as u64).as_str());
    heading.append(" point(s), f=");
    heading.append(report.first.as_str());
    heading.append(" to ");
    heading.append(report.last.as_str());
    heading.append(" Hz):");
    r.push(heading);
    let mut i: usize = 0;
    assert(texts(r@) =~= goal.subrange(0, 1));
    while i < report.rows.len()
        invariant
            i <= report.rows@.len(),
            n == report.rows@.len(),
            goal == noise_lines(*u, *report),
            texts(r@) =~= goal.subrange(0, 1 + i),
        decreases report.rows@.len() - i,
    {
        let line = noise_row_line(u, &report.rows[i]);
        assert(goal[1 + i] == line@);
        let ghost before = texts(r@);
        r.push(line);
        assert(texts(r@) =~= before.push(line@));
        i += 1;
    }

    let mut total = "  total integrated output noise = ".to_owned();
    total.append(report.total.as_str());
    total.append(" ");
    total.append(u.unit.as_str());
    total.append(" rms");
    let ghost before = texts(r@);
    r.push(total);
    assert(texts(r@) =~= before.push(total@));
    assert(goal[n + 1] == total@);
    if let Some(t) = &report.input_total {
        let mut line = "  total integrated input-referred noise (at ".to_owned();
        line.append(u.source.as_str());
        line.append(") = ");
        line.append(t.as_str());
        line.append(" ");
        line.append(u.source_unit.as_str());
        line.append(" rms");
        let ghost before = texts(r@);
        r.push(line);
        assert(texts(r@) =~= before.push(line@));
        assert(goal[n + 2] == line@);
    }
    let ghost start = r@.len() as int;
    assert(texts(r@) =~= goal.subrange(0, start));
    if report.shares.len() > 0 {
        let ghost before = texts(r@);
        r.push("  per-device contribution to the integrated output noise:".to_owned());
        assert(texts(r@) =~= before.push(
            "  per-device contribution to the integrated output noise:"@,
        ));
        assert(texts(r@) =~= goal.subrange(0, start + 1));
        let mut k: usize = 0;
        while k < report.shares.len()
            invariant
                k <= report.shares@.len(),
                goal == noise_lines(*u, *report),
                start == report.rows@.len() + 2 + (if report.input_total is Some {
                    1int
                } else {
                    0int
                }),
                texts(r@) =~= goal.subrange(0, start + 1 + k),
            decreases report.shares@.len() - k,
        {
            let line = noise_share_line(u, &report.shares[k]);
            assert(goal[start + 1 + k] == line@);
            let ghost before = texts(r@);
            r.push(line);
            assert(texts(r@) =~= before.push(line@));
            k += 1;
        }
    }
    assert(texts(r@) =~= goal);
    r
}

/// The places are those of the numbers, from the largest number to the smallest;
/// equal ones keep their order.
pub open spec fn is_loudest_first(powers: Seq<Real>, order: Seq<usize>) -> bool {
    &&& order.len() == powers.len()
    &&& order.no_duplicates()
    &&& forall|i: int| 0 <= i < order.len() ==> #[trigger] order[i] < powers.len()
    &&& forall|i: int, j: int|
        0 <= i < j < order.len() ==> comes_before(powers, #[trigger] order[i], #[trigger] order[j])
}

/// The first place holds a larger number than the second, or the same one and stands
/// before it.
pub open spec fn comes_before(powers: Seq<Real>, a: usize, b: usize) -> bool {
    let x = powers[a as int].total_rank();
    let y = powers[b as int].total_rank();
    x > y || (x == y && a < b)
}

/// The places of the numbers, from the largest number to the smallest; equal ones
/// keep their order.
pub fn loudest_first(powers: &Vec<Real>) -> (r: Vec<usize>)
    ensures
        is_loudest_first(powers@, r@),
{
    let mut r: Vec<usize> = Vec::new();
    let mut i: usize = 0;
    while i < powers.len()
        invariant
            i <= powers@.len(),
            r@.len() == i,
            r@.no_duplicates(),
            forall|k: int| 0 <= k < r@.len() ==> #[trigger] r@[k] < i,
            forall|j: int, k: int|
                0 <= j < k < r@.len() ==> comes_before(
                    powers@,
                    #[trigger] r@[j],
                    #[trigger] r@[k],
                ),
        decreases powers@.len() - i,
    {
        let key = powers[i].total_order_key();
        let mut p: usize = 0;
        while p < r.len() && powers[r[p]].total_order_key() >= key
            invariant
                i < powers@.len(),
                key == powers@[i as int].total_rank(),
                p <= r@.len(),
                r@.len() == i,
                forall|k: int| 0 <= k < r@.len() ==> #[trigger] r@[k] < i,
                forall|k: int|
                    0 <= k < p ==> powers@[#[trigger] r@[k] as int].total_rank() >= key,
            decreases r@.len() - p,
        {
            p += 1;
        }
        let ghost before = r@;
        r.insert(p, i);
        proof {
            assert forall|j: int, k: int| 0 <= j < k < r@.len() implies comes_before(
                powers@,
                #[trigger] r@[j],
                #[trigger] r@[k],
            ) by {
                if k < p {
                    assert(comes_before(powers@, before[j], before[k]));
                } else if j > p {
                    assert(comes_before(powers@, before[j - 1], before[k - 1]));
                } else if k == p {
                    assert(before[j] < i);
                } else if j == p {
                    assert(powers@[before[p as int] as int].total_rank() < key);
                    if k - 1 > p {
                        assert(comes_before(powers@, before[p as int], before[k - 1]));
                    }
                } else {
                    assert(comes_before(powers@, before[j], before[k - 1]));
                }
            }
            assert forall|j: int, k: int| 0 <= j < r@.len() && 0 <= k < r@.len() && j != k implies
                r@[j] != r@[k] by {
                if j < k {
                    assert(comes_before(powers@, r@[j], r@[k]));
                } else {
                    assert(comes_before(powers@, r@[k], r@[j]));
                }
            }
        }
        i += 1;
    }
    r
}

} // verus!
