//! What the lines of a report, a check and a warning say of what they are about.
use crate::build_message::{bad_multiplicity_text, listed};
use crate::check::{
    all_early, all_late, check_group, check_models, early_lines, group_lines, summary_texts,
    CheckTally, CheckedFile, ParseOutcome,
};
use crate::check_laws::{lemma_verdict, may_declare, occurs};
use crate::library_laws::lemma_joined;
use crate::listing::{
    all_mfactor, all_unplaceable, library_warnings, listing, mfactor_texts, said, skipped_text,
    unplaceable_texts, Line, LineView,
};
use crate::netlist::Module;
use crate::number::Real;
use crate::place::BuildError;
use crate::quantity::{
    name_non_finite_row, non_finite_text, notation_of, unit_suffix, Notation, Quantity,
};
use crate::refusal::{
    first_refusal, prefixed, refusal_block, refusal_detail, refusal_report, unsupported_text, Cause,
    FrontendFault,
};
use crate::report::{
    ac_heading, ac_line, columns, columns_match, each_after_space, is_column, is_phasor_column,
    noise_lines, noise_row_text, noise_share_text, phasor_columns_match, rendered, report_noise,
    shown, sweep_heading, sweep_line, transient_heading, transient_line, NoiseReport, NoiseRow,
    NoiseShare, NoiseUnits,
};
use crate::text::{decimal, join, lines_of, replace_all, texts};
use vstd::prelude::*;

verus! {

// ---- rows of a table ------------------------------------------------------

/// The quantities that stand for a place of the solution.
pub open spec fn placed(quantities: Seq<Quantity>, n: nat) -> Seq<Quantity> {
    quantities.filter(|q: Quantity| q.index < n)
}

proof fn lemma_placed(quantities: Seq<Quantity>, n: nat)
    ensures
        shown(quantities, n) == placed(quantities, n),
    decreases quantities.len(),
{
    reveal(Seq::filter);
    if quantities.len() > 0 {
        lemma_placed(quantities.drop_last(), n);
    }
}

/// The text gives the value of a quantity: its label, the spelled value and its unit, with
/// no space around the sign between them.
pub open spec fn tells<F: Fn(Notation, Real) -> String>(
    spell: F,
    q: Quantity,
    value: Real,
    text: Seq<char>,
) -> bool {
    exists|notation: Notation, digits: String| #[trigger]
        call_ensures(spell, (notation, value), digits) && text == replace_all(
            q.label@ + " = "@ + digits@ + (if q.unit@.len() == 0 {
                Seq::<char>::empty()
            } else {
                " "@ + q.unit@
            }),
            " = "@,
            "="@,
        )
}

proof fn lemma_column<F: Fn(Notation, Real) -> String>(
    spell: F,
    q: Quantity,
    value: Real,
    text: Seq<char>,
)
    requires
        is_column(spell, q, value, text),
    ensures
        tells(spell, q, value, text),
{
    let notation = notation_of(q.is_potential, value);
    let t = choose|t: String| #[trigger]
        call_ensures(spell, (notation, value), t) && text == replace_all(
            rendered(q, t@),
            " = "@,
            "="@,
        );
    assert(call_ensures(spell, (notation, value), t));
}

/// A row of a table has a column for each quantity that stands for a place of the solution,
/// in order, with the value at that place.
pub proof fn a_row_tells_every_value<F: Fn(Notation, Real) -> String>(
    quantities: &Vec<Quantity>,
    x: &Vec<Real>,
    spell: &F,
    r: Vec<String>,
    k: int,
)
    requires
        call_ensures(columns::<F>, (quantities, x, spell), r),
        0 <= k < placed(quantities@, x@.len()).len(),
    ensures
        r@.len() == placed(quantities@, x@.len()).len(),
        tells(
            *spell,
            placed(quantities@, x@.len())[k],
            x@[placed(quantities@, x@.len())[k].index as int],
            r@[k]@,
        ),
{
    lemma_placed(quantities@, x@.len());
    let cols = texts(r@);
    assert(cols.len() == r@.len());
    let q = shown(quantities@, x@.len())[k];
    assert(is_column(*spell, q, x@[q.index as int], cols[k]));
    lemma_column(*spell, q, x@[q.index as int], cols[k]);
}

proof fn lemma_spaced(items: Seq<Seq<char>>, line: Seq<char>)
    requires
        items.contains(line),
    ensures
        occurs(line, each_after_space(items)),
    decreases items.len(),
{
    let text = each_after_space(items);
    let k = choose|k: int| 0 <= k < items.len() && items[k] == line;
    let before = each_after_space(items.drop_last());
    if k == items.len() - 1 {
        let head = before + " "@;
        assert(text =~= head + line + Seq::empty());
    } else {
        assert(items.drop_last()[k] == line);
        lemma_spaced(items.drop_last(), line);
        let (a, b) = choose|a: Seq<char>, b: Seq<char>| before == #[trigger] (a + line + b);
        let rest = b + " "@ + items.last();
        assert(text =~= a + line + rest);
    }
}

/// Something that stands in a part of a text stands in the text.
proof fn lemma_within(word: Seq<char>, part: Seq<char>, head: Seq<char>, tail: Seq<char>)
    requires
        occurs(word, part),
    ensures
        occurs(word, head + part + tail),
{
    let (a, b) = choose|a: Seq<char>, b: Seq<char>| part == #[trigger] (a + word + b);
    let before = head + a;
    let after = b + tail;
    assert(head + part + tail =~= before + word + after);
}

/// The line about a point of a sweep tells the value of every quantity there.
pub proof fn a_sweep_line_tells_every_value<F: Fn(Notation, Real) -> String>(
    source: &str,
    value: &str,
    quantities: &Vec<Quantity>,
    x: &Vec<Real>,
    spell: &F,
    r: String,
    k: int,
) -> (text: Seq<char>)
    requires
        call_ensures(sweep_line::<F>, (source, value, quantities, x, spell), r),
        0 <= k < placed(quantities@, x@.len()).len(),
    ensures
        occurs(text, r@),
        tells(
            *spell,
            placed(quantities@, x@.len())[k],
            x@[placed(quantities@, x@.len())[k].index as int],
            text,
        ),
{
    lemma_placed(quantities@, x@.len());
    let head = "  "@ + source@ + "="@ + value@ + ":"@;
    let cols = choose|cols: Seq<Seq<char>>| #[trigger]
        columns_match(*spell, quantities@, x@, cols) && r@ == head + each_after_space(cols);
    let q = shown(quantities@, x@.len())[k];
    assert(is_column(*spell, q, x@[q.index as int], cols[k]));
    lemma_column(*spell, q, x@[q.index as int], cols[k]);
    lemma_spaced(cols, cols[k]);
    lemma_within(cols[k], each_after_space(cols), head, Seq::empty());
    assert(r@ =~= head + each_after_space(cols) + Seq::empty());
    cols[k]
}

/// The line about a timepoint tells the value of every quantity then.
pub proof fn a_transient_line_tells_every_value<F: Fn(Notation, Real) -> String>(
    time: &str,
    quantities: &Vec<Quantity>,
    x: &Vec<Real>,
    spell: &F,
    r: String,
    k: int,
) -> (text: Seq<char>)
    requires
        call_ensures(transient_line::<F>, (time, quantities, x, spell), r),
        0 <= k < placed(quantities@, x@.len()).len(),
    ensures
        occurs(text, r@),
        tells(
            *spell,
            placed(quantities@, x@.len())[k],
            x@[placed(quantities@, x@.len())[k].index as int],
            text,
        ),
{
    lemma_placed(quantities@, x@.len());
    let head = "  t="@ + time@ + "s  "@;
    let cols = choose|cols: Seq<Seq<char>>| #[trigger]
        columns_match(*spell, quantities@, x@, cols) && r@ == head + join(cols, "  "@);
    let q = shown(quantities@, x@.len())[k];
    assert(is_column(*spell, q, x@[q.index as int], cols[k]));
    lemma_column(*spell, q, x@[q.index as int], cols[k]);
    lemma_joined(cols, "  "@, cols[k]);
    lemma_within(cols[k], join(cols, "  "@), head, Seq::empty());
    assert(r@ =~= head + join(cols, "  "@) + Seq::empty());
    cols[k]
}

/// The line about a frequency tells the magnitude and the phase of every quantity there.
pub proof fn an_ac_line_tells_every_response<F: Fn((Real, Real)) -> (String, String)>(
    frequency: &str,
    quantities: &Vec<Quantity>,
    x: &Vec<(Real, Real)>,
    spell: &F,
    r: String,
    k: int,
) -> (t: (String, String))
    requires
        call_ensures(ac_line::<F>, (frequency, quantities, x, spell), r),
        0 <= k < placed(quantities@, x@.len()).len(),
    ensures
        call_ensures(*spell, (x@[placed(quantities@, x@.len())[k].index as int],), t),
        occurs(
            placed(quantities@, x@.len())[k].label@ + "="@ + t.0@ + (if placed(
                quantities@,
                x@.len(),
            )[k].unit@.len() == 0 {
                Seq::<char>::empty()
            } else {
                " "@ + placed(quantities@, x@.len())[k].unit@
            }) + "∠"@ + t.1@ + "°"@,
            r@,
        ),
{
    lemma_placed(quantities@, x@.len());
    let head = "  f="@ + frequency@ + "Hz  "@;
    let cols = choose|cols: Seq<Seq<char>>| #[trigger]
        phasor_columns_match(*spell, quantities@, x@, cols) && r@ == head + join(cols, "  "@);
    let q = shown(quantities@, x@.len())[k];
    let z = x@[q.index as int];
    assert(is_phasor_column(*spell, q, z, cols[k]));
    let t = choose|t: (String, String)| #[trigger]
        call_ensures(*spell, (z,), t) && cols[k] == q.label@ + "="@ + t.0@ + unit_suffix(q.unit@)
            + "∠"@ + t.1@ + "°"@;
    lemma_joined(cols, "  "@, cols[k]);
    lemma_within(cols[k], join(cols, "  "@), head, Seq::empty());
    assert(r@ =~= head + join(cols, "  "@) + Seq::empty());
    t
}

// ---- noise ----------------------------------------------------------------

/// A noise report has a heading, a line for each frequency in order, the total, the total
/// referred to the source where there is one, and, where devices contribute, a heading and
/// a line for each in order. A density is given in squared units of the output by the
/// hertz, an amplitude by its root, and what is referred in those of the source.
pub proof fn a_noise_report_tells_every_number(
    u: &NoiseUnits,
    report: &NoiseReport,
    r: Vec<String>,
    i: int,
    k: int,
)
    requires
        call_ensures(report_noise, (u, report), r),
    ensures
        r@.len() == 1 + report.rows@.len() + 1 + (if report.input_total is Some {
            1int
        } else {
            0int
        }) + (if report.shares@.len() == 0 {
            0
        } else {
            1 + report.shares@.len() as int
        }),
        occurs(u.output@, r@[0]@),
        0 <= i < report.rows@.len() ==> {
            let (row, line) = (report.rows@[i], r@[1 + i]@);
            &&& occurs("f="@ + row.frequency@ + "Hz"@, line)
            &&& occurs("S="@ + row.power@ + " "@ + u.unit@ + "^2/Hz"@, line)
            &&& occurs(row.amplitude@ + " "@ + u.unit@ + "/sqrt(Hz)"@, line)
            &&& row.input matches Some(input) ==> occurs(
                "Sin="@ + input@ + " "@ + u.source_unit@ + "^2/Hz"@,
                line,
            )
        },
        occurs(report.total@ + " "@ + u.unit@ + " rms"@, r@[1 + report.rows@.len() as int]@),
        report.input_total matches Some(t) ==> occurs(
            t@ + " "@ + u.source_unit@ + " rms"@,
            r@[2 + report.rows@.len() as int]@,
        ) && occurs(u.source@, r@[2 + report.rows@.len() as int]@),
        0 <= k < report.shares@.len() ==> {
            let line = r@[r@.len() - report.shares@.len() + k]@;
            &&& occurs(report.shares@[k].name@, line)
            &&& occurs(report.shares@[k].rms@ + " "@ + u.unit@ + " rms"@, line)
            &&& occurs(report.shares@[k].percent@ + "%"@, line)
        },
{
    let n = report.rows@.len() as int;
    let all = texts(r@);
    assert(all.len() == r@.len());
    assert(all == noise_lines(*u, *report));
    let rows = report.rows@.map_values(|row: NoiseRow| noise_row_text(*u, row));
    assert(rows.len() == n);
    let count = decimal(report.rows@.len());
    assert(r@[0]@ == all[0]);
    lemma_part(
        "Noise analysis at "@,
        u.output@,
        " ("@ + count + " point(s), f="@ + report.first@ + " to "@ + report.last@ + " Hz):"@,
        r@[0]@,
    );
    if 0 <= i < n {
        let row = report.rows@[i];
        let line = noise_row_text(*u, row);
        assert(all[1 + i] == rows[i]);
        assert(r@[1 + i]@ == line);
        lemma_row_line(*u, row);
    }
    assert(r@[1 + n]@ == all[1 + n]);
    lemma_part(
        "  total integrated output noise = "@,
        report.total@ + " "@ + u.unit@ + " rms"@,
        Seq::empty(),
        r@[1 + n]@,
    );
    if let Some(t) = report.input_total {
        let line = r@[2 + n]@;
        assert(line == all[2 + n]);
        lemma_part(
            "  total integrated input-referred noise (at "@ + u.source@ + ") = "@,
            t@ + " "@ + u.source_unit@ + " rms"@,
            Seq::empty(),
            line,
        );
        lemma_part(
            "  total integrated input-referred noise (at "@,
            u.source@,
            ") = "@ + t@ + " "@ + u.source_unit@ + " rms"@,
            line,
        );
    }
    if 0 <= k < report.shares@.len() {
        let share = report.shares@[k];
        let lines = report.shares@.map_values(|s: NoiseShare| noise_share_text(*u, s));
        assert(lines.len() == report.shares@.len());
        let place = r@.len() - report.shares@.len() + k;
        assert(all[place] == lines[k]);
        let line = r@[place]@;
        assert(line == noise_share_text(*u, share));
        lemma_share_line(*u, share);
    }
}

proof fn lemma_row_line(u: NoiseUnits, row: NoiseRow)
    ensures
        occurs("f="@ + row.frequency@ + "Hz"@, noise_row_text(u, row)),
        occurs("S="@ + row.power@ + " "@ + u.unit@ + "^2/Hz"@, noise_row_text(u, row)),
        occurs(row.amplitude@ + " "@ + u.unit@ + "/sqrt(Hz)"@, noise_row_text(u, row)),
        row.input matches Some(input) ==> occurs(
            "Sin="@ + input@ + " "@ + u.source_unit@ + "^2/Hz"@,
            noise_row_text(u, row),
        ),
{
    lemma_literals();
    let line = noise_row_text(u, row);
    let blank = seq![' ', ' '];
    let sin = match row.input {
        Some(input) => "  Sin="@ + input@ + " "@ + u.source_unit@ + "^2/Hz"@,
        None => Seq::empty(),
    };
    let power = "S="@ + row.power@ + " "@ + u.unit@ + "^2/Hz"@;
    let amplitude = row.amplitude@ + " "@ + u.unit@ + "/sqrt(Hz)"@;
    let frequency = "f="@ + row.frequency@ + "Hz"@;
    let head = blank + frequency + blank;
    let tail = seq![')'] + sin;
    let middle = seq![' ', ' ', '('];
    assert(line =~= head + power + middle + amplitude + tail) by {
        lemma_row_pieces(row.frequency@, row.power@, row.amplitude@, u.unit@, sin);
    }
    lemma_part(blank, frequency, blank + power + middle + amplitude + tail, line);
    lemma_part(head, power, middle + amplitude + tail, line);
    lemma_part(head + power + middle, amplitude, tail, line);
    if let Some(input) = row.input {
        let word = "Sin="@ + input@ + " "@ + u.source_unit@ + "^2/Hz"@;
        assert(sin =~= blank + word);
        lemma_part(
            head + power + middle + amplitude + seq![')'] + blank,
            word,
            Seq::empty(),
            line,
        );
    }
}

proof fn lemma_literals()
    ensures
        "  f="@ == seq![' ', ' '] + "f="@,
        "Hz  S="@ == "Hz"@ + seq![' ', ' '] + "S="@,
        "^2/Hz  ("@ == "^2/Hz"@ + seq![' ', ' ', '('],
        "/sqrt(Hz))"@ == "/sqrt(Hz)"@ + seq![')'],
        "  Sin="@ == seq![' ', ' '] + "Sin="@,
{
    reveal_strlit("  f=");
    reveal_strlit("f=");
    reveal_strlit("Hz  S=");
    reveal_strlit("Hz");
    reveal_strlit("S=");
    reveal_strlit("^2/Hz  (");
    reveal_strlit("^2/Hz");
    reveal_strlit("/sqrt(Hz))");
    reveal_strlit("/sqrt(Hz)");
    reveal_strlit("  Sin=");
    reveal_strlit("Sin=");
    assert("  f="@ =~= seq![' ', ' '] + "f="@);
    assert("Hz  S="@ =~= "Hz"@ + seq![' ', ' '] + "S="@);
    assert("^2/Hz  ("@ =~= "^2/Hz"@ + seq![' ', ' ', '(']);
    assert("/sqrt(Hz))"@ =~= "/sqrt(Hz)"@ + seq![')']);
    assert("  Sin="@ =~= seq![' ', ' '] + "Sin="@);
}

#[verifier::rlimit(50)]
proof fn lemma_row_pieces(
    frequency: Seq<char>,
    power: Seq<char>,
    amplitude: Seq<char>,
    unit: Seq<char>,
    sin: Seq<char>,
)
    ensures
        "  f="@ + frequency + "Hz  S="@ + power + " "@ + unit + "^2/Hz  ("@ + amplitude + " "@ + unit
            + "/sqrt(Hz))"@ + sin == (seq![' ', ' '] + ("f="@ + frequency + "Hz"@) + seq![' ', ' '])
            + ("S="@ + power + " "@ + unit + "^2/Hz"@) + seq![' ', ' ', '('] + (amplitude + " "@
            + unit + "/sqrt(Hz)"@) + (seq![')'] + sin),
{
    lemma_literals();
    let blank = seq![' ', ' '];
    let one = "  f="@ + frequency + "Hz  S="@;
    let two = blank + ("f="@ + frequency + "Hz"@) + blank;
    assert(one =~= two + "S="@);
    let three = power + " "@ + unit + "^2/Hz  ("@;
    let four = power + " "@ + unit + "^2/Hz"@;
    assert(three =~= four + seq![' ', ' ', '(']);
    let five = amplitude + " "@ + unit + "/sqrt(Hz))"@ + sin;
    let six = amplitude + " "@ + unit + "/sqrt(Hz)"@;
    assert(five =~= six + (seq![')'] + sin));
    assert("  f="@ + frequency + "Hz  S="@ + power + " "@ + unit + "^2/Hz  ("@ + amplitude + " "@
        + unit + "/sqrt(Hz))"@ + sin =~= one + three + five);
    assert("S="@ + power + " "@ + unit + "^2/Hz"@ =~= "S="@ + four);
    assert(one + three + five =~= two + ("S="@ + four) + seq![' ', ' ', '('] + six + (seq![')']
        + sin));
}

proof fn lemma_share_line(u: NoiseUnits, share: NoiseShare)
    ensures
        occurs(share.name@, noise_share_text(u, share)),
        occurs(share.rms@ + " "@ + u.unit@ + " rms"@, noise_share_text(u, share)),
        occurs(share.percent@ + "%"@, noise_share_text(u, share)),
{
    let line = noise_share_text(u, share);
    let name = crate::report::padded(share.name@);
    let pad = name.subrange(share.name@.len() as int, name.len() as int);
    assert(name =~= share.name@ + pad);
    reveal_strlit(" rms  (");
    reveal_strlit(" rms");
    reveal_strlit("%)");
    reveal_strlit("%");
    lemma_part(
        "    "@,
        share.name@,
        pad + " "@ + share.rms@ + " "@ + u.unit@ + " rms  ("@ + share.percent@ + "%)"@,
        line,
    );
    lemma_part(
        "    "@ + name + " "@,
        share.rms@ + " "@ + u.unit@ + " rms"@,
        seq![' ', ' ', '('] + share.percent@ + "%)"@,
        line,
    );
    lemma_part(
        "    "@ + name + " "@ + share.rms@ + " "@ + u.unit@ + " rms  ("@,
        share.percent@ + "%"@,
        seq![')'],
        line,
    );
}

proof fn lemma_part(before: Seq<char>, word: Seq<char>, after: Seq<char>, text: Seq<char>)
    requires
        text =~= before + word + after,
    ensures
        occurs(word, text),
{
}

// ---- errors and warnings --------------------------------------------------

/// A row whose equation went wrong is named by the first quantity that stands for it, and
/// by its number in any case.
pub proof fn a_bad_row_is_named_by_its_quantity(
    row: usize,
    quantities: &Vec<Quantity>,
    r: String,
    k: int,
)
    requires
        call_ensures(name_non_finite_row, (row, quantities), r),
        0 <= k < quantities@.len(),
        quantities@[k].index == row,
        forall|j: int| 0 <= j < k ==> (#[trigger] quantities@[j]).index != row,
    ensures
        occurs("`"@ + quantities@[k].label@ + "` (unknown #"@ + decimal(row as nat) + ")"@, r@),
{
    lemma_named(quantities@, row, 0, k);
    let head = "the non-finite value is in the equation of "@;
    let word = "`"@ + quantities@[k].label@ + "` (unknown #"@ + decimal(row as nat) + ")"@;
    let tail = "; look at the device(s) contributing to it"@;
    reveal_strlit("the non-finite value is in the equation of `");
    reveal_strlit("the non-finite value is in the equation of ");
    reveal_strlit("`");
    reveal_strlit(")");
    reveal_strlit("; look at the device(s) contributing to it");
    reveal_strlit("); look at the device(s) contributing to it");
    assert("the non-finite value is in the equation of `"@ =~= head + "`"@);
    assert("); look at the device(s) contributing to it"@ =~= ")"@ + tail);
    lemma_part(head, word, tail, r@);
}

proof fn lemma_named(all: Seq<Quantity>, row: usize, from: int, k: int)
    requires
        0 <= from <= k < all.len(),
        all[k].index == row,
        forall|j: int| from <= j < k ==> (#[trigger] all[j]).index != row,
    ensures
        non_finite_text(all, row, from) == "the non-finite value is in the equation of `"@
            + all[k].label@ + "` (unknown #"@ + decimal(row as nat)
            + "); look at the device(s) contributing to it"@,
    decreases k - from,
{
    if from < k {
        assert(all[from].index != row);
        lemma_named(all, row, from + 1, k);
    }
}

/// The first refusal among the causes of an error is the one that is told: its own text,
/// or that of a construct without support with its reason. An error without one tells
/// none.
pub proof fn the_first_refusal_is_told(causes: &Vec<Cause>, r: Option<String>)
    requires
        call_ensures(refusal_block, (causes,), r),
    ensures
        r is None <==> forall|i: int| 0 <= i < causes@.len() ==> #[trigger] causes@[i] is Other,
        forall|i: int|
            0 <= i < causes@.len() && !(#[trigger] causes@[i] is Other) && (forall|j: int|
                0 <= j < i ==> #[trigger] causes@[j] is Other) ==> r is Some && match causes@[i] {
                Cause::Refused(text) => r->0@ == text@,
                Cause::Unsupported(reason) => occurs(reason@, r->0@),
                Cause::Other => false,
            },
{
    lemma_refusal(causes@);
    assert forall|i: int|
        0 <= i < causes@.len() && !(#[trigger] causes@[i] is Other) && (forall|j: int|
            0 <= j < i ==> #[trigger] causes@[j] is Other) implies r is Some && match causes@[i] {
        Cause::Refused(text) => r->0@ == text@,
        Cause::Unsupported(reason) => occurs(reason@, r->0@),
        Cause::Other => false,
    } by {
        lemma_refusal_at(causes@, i);
        if let Cause::Unsupported(reason) = causes@[i] {
            let text = unsupported_text(reason@);
            let head = "refused: "@;
            let tail = text.subrange((head.len() + reason@.len()) as int, text.len() as int);
            assert(text.len() >= head.len() + reason@.len());
            lemma_part(head, reason@, tail, text);
        }
    }
}

proof fn lemma_refusal(causes: Seq<Cause>)
    ensures
        first_refusal(causes) is None <==> forall|i: int|
            0 <= i < causes.len() ==> #[trigger] causes[i] is Other,
    decreases causes.len(),
{
    if causes.len() > 0 {
        let rest = causes.drop_first();
        lemma_refusal(rest);
        if causes[0] is Other {
            if forall|i: int| 0 <= i < rest.len() ==> #[trigger] rest[i] is Other {
                assert forall|i: int| 0 <= i < causes.len() implies #[trigger] causes[i] is Other by {
                    if i > 0 {
                        assert(rest[i - 1] is Other);
                    }
                }
            } else {
                let i = choose|i: int| 0 <= i < rest.len() && !(#[trigger] rest[i] is Other);
                assert(causes[i + 1] == rest[i]);
            }
        }
    }
}

proof fn lemma_refusal_at(causes: Seq<Cause>, i: int)
    requires
        0 <= i < causes.len(),
        !(causes[i] is Other),
        forall|j: int| 0 <= j < i ==> #[trigger] causes[j] is Other,
    ensures
        first_refusal(causes) == match causes[i] {
            Cause::Refused(text) => Some(text@),
            Cause::Unsupported(reason) => Some(unsupported_text(reason@)),
            Cause::Other => None,
        },
    decreases causes.len(),
{
    if i > 0 {
        assert(causes[0] is Other);
        let rest = causes.drop_first();
        assert forall|j: int| 0 <= j < i - 1 implies #[trigger] rest[j] is Other by {
            assert(causes[j + 1] is Other);
        }
        lemma_refusal_at(rest, i - 1);
    }
}

/// The line is a warning in which the word stands.
pub open spec fn warns_of(line: LineView, word: Seq<char>) -> bool {
    line matches LineView::Warning(text) && occurs(word, text)
}

/// Some line is a warning in which the word stands.
pub open spec fn is_warned_of(lines: Seq<LineView>, word: Seq<char>) -> bool {
    exists|i: int| 0 <= i < lines.len() && warns_of(#[trigger] lines[i], word)
}

proof fn lemma_warned_before(before: Seq<LineView>, more: Seq<LineView>, word: Seq<char>)
    ensures
        is_warned_of(before, word) || is_warned_of(more, word) ==> is_warned_of(before + more, word),
{
    if is_warned_of(before, word) {
        let i = choose|i: int| 0 <= i < before.len() && warns_of(#[trigger] before[i], word);
        assert(warns_of((before + more)[i], word));
    } else if is_warned_of(more, word) {
        let i = choose|i: int| 0 <= i < more.len() && warns_of(#[trigger] more[i], word);
        assert(warns_of((before + more)[before.len() + i], word));
    }
}

proof fn lemma_unplaceable_warned(modules: Seq<Module>, path: Seq<char>, upto: int, i: int)
    requires
        0 <= i < upto <= modules.len(),
        modules[i].ports@.len() == 0,
    ensures
        is_warned_of(
            all_unplaceable(modules, path, upto),
            path + ": module `"@ + modules[i].name@ + "` declares no ports"@,
        ),
    decreases upto,
{
    let word = path + ": module `"@ + modules[i].name@ + "` declares no ports"@;
    let before = all_unplaceable(modules, path, upto - 1);
    let own = unplaceable_texts(modules[upto - 1].name@, path);
    if i == upto - 1 {
        let name = modules[i].name@;
        let tail = ", so no deck line can place it — it was compiled and then ignored."@;
        let full = "` declares no ports, so no deck line can place it — it was compiled and then ignored."@;
        reveal_strlit("` declares no ports, so no deck line can place it — it was compiled and then ignored.");
        reveal_strlit(", so no deck line can place it — it was compiled and then ignored.");
        reveal_strlit("` declares no ports");
        assert(full =~= "` declares no ports"@ + tail);
        lemma_part(
            "[va-cli] warning: "@,
            word,
            tail,
            "[va-cli] warning: "@ + path + ": module `"@ + name + full,
        );
        assert(warns_of(own[0], word));
    } else {
        lemma_unplaceable_warned(modules, path, upto - 1, i);
    }
    lemma_warned_before(before, own, word);
}

proof fn lemma_mfactor_warned(modules: Seq<Module>, path: Seq<char>, upto: int, i: int)
    requires
        0 <= i < upto <= modules.len(),
        modules[i].scales_by_mfactor,
    ensures
        is_warned_of(
            all_mfactor(modules, path, upto),
            path + ": module `"@ + modules[i].name@,
        ),
    decreases upto,
{
    let word = path + ": module `"@ + modules[i].name@;
    let before = all_mfactor(modules, path, upto - 1);
    let own = mfactor_texts(modules[upto - 1].name@, path);
    if i == upto - 1 {
        let text = own[0]->Warning_0;
        let head = "[va-cli] warning: "@;
        let size = (head.len() + word.len()) as int;
        lemma_part(head, word, text.subrange(size, text.len() as int), text);
        assert(warns_of(own[0], word));
    } else {
        lemma_mfactor_warned(modules, path, upto - 1, i);
    }
    lemma_warned_before(before, own, word);
}

/// Every module of a compiled library that has no ports is warned about, and so is every
/// one that scales a flow by the multiplicity itself; where there is none of either there
/// is no warning.
pub proof fn every_unusual_module_is_warned_about(
    modules: &Vec<Module>,
    path: &str,
    r: Vec<Line>,
    i: int,
)
    requires
        call_ensures(library_warnings, (modules, path), r),
        0 <= i < modules@.len(),
    ensures
        modules@[i].ports@.len() == 0 ==> is_warned_of(
            said(r@),
            path@ + ": module `"@ + modules@[i].name@ + "` declares no ports"@,
        ),
        modules@[i].scales_by_mfactor ==> is_warned_of(
            said(r@),
            path@ + ": module `"@ + modules@[i].name@,
        ),
        (forall|j: int|
            0 <= j < modules@.len() ==> (#[trigger] modules@[j]).ports@.len() > 0
                && !modules@[j].scales_by_mfactor) ==> r@.len() == 0,
{
    let n = modules@.len() as int;
    let a = all_unplaceable(modules@, path@, n);
    let b = all_mfactor(modules@, path@, n);
    assert(said(r@) == a + b);
    if modules@[i].ports@.len() == 0 {
        lemma_unplaceable_warned(modules@, path@, n, i);
        lemma_warned_before(a, b, path@ + ": module `"@ + modules@[i].name@ + "` declares no ports"@);
    }
    if modules@[i].scales_by_mfactor {
        lemma_mfactor_warned(modules@, path@, n, i);
        lemma_warned_before(a, b, path@ + ": module `"@ + modules@[i].name@);
    }
    if forall|j: int|
        0 <= j < modules@.len() ==> (#[trigger] modules@[j]).ports@.len() > 0
            && !modules@[j].scales_by_mfactor {
        lemma_nothing_to_warn(modules@, path@, n);
        assert(said(r@).len() == r@.len());
    }
}

proof fn lemma_nothing_to_warn(modules: Seq<Module>, path: Seq<char>, upto: int)
    requires
        0 <= upto <= modules.len(),
        forall|j: int|
            0 <= j < modules.len() ==> (#[trigger] modules[j]).ports@.len() > 0
                && !modules[j].scales_by_mfactor,
    ensures
        all_unplaceable(modules, path, upto).len() == 0,
        all_mfactor(modules, path, upto).len() == 0,
    decreases upto,
{
    if upto > 0 {
        lemma_nothing_to_warn(modules, path, upto - 1);
        assert(modules[upto - 1].ports@.len() > 0);
    }
}

// ---- checks ---------------------------------------------------------------

/// The closing lines of a check give, in turn, the passes among the files that declare a
/// module, the files that declare none, how many passes are incomplete and how many are
/// not, how many failures are incomplete, the complete passes among the complete files, the
/// passes that a transient run approximates, and how many files there are in all.
pub proof fn a_summary_gives_every_count(tally: &CheckTally, codegen: bool, r: Vec<String>)
    requires
        call_ensures(CheckTally::summary, (tally, codegen), r),
        tally.consistent(),
    ensures
        ({
            let (passed, failed, none) = (tally.passed, tally.failed, tally.no_module);
            let whole = passed - tally.passed_incomplete;
            let whole_failed = failed - tally.failed_incomplete;
            &&& r@.len() == 7
            &&& occurs(
                decimal(passed as nat) + "/"@ + decimal((passed + failed) as nat)
                    + " files declaring a module passed "@,
                r@[0]@,
            )
            &&& occurs(decimal(none as nat), r@[1]@)
            &&& occurs(
                decimal(passed as nat) + " passes, "@ + decimal(tally.passed_incomplete as nat)
                    + " are on an incomplete module"@,
                r@[2]@,
            )
            &&& occurs(decimal(whole as nat) + " are self-contained"@, r@[2]@)
            &&& occurs(
                decimal(tally.failed_incomplete as nat) + " of the "@ + decimal(failed as nat),
                r@[3]@,
            )
            &&& occurs(decimal(whole as nat) + "/"@ + decimal((whole + whole_failed) as nat), r@[4]@)
            &&& occurs(
                decimal(passed as nat) + " passes, "@ + decimal(tally.passed_approximated as nat)
                    + " use an operator"@,
                r@[5]@,
            )
            &&& occurs(
                decimal((passed + failed + none) as nat) + " file(s) scanned in total"@,
                r@[6]@,
            )
        }),
{
    let all = texts(r@);
    assert(all == summary_texts(*tally, codegen));
    assert(all.len() == r@.len());
    assert forall|i: int| 0 <= i < 7 implies (#[trigger] r@[i])@ == all[i] by {}
    lemma_summary(*tally, codegen);
}

proof fn lemma_summary(tally: CheckTally, codegen: bool)
    requires
        tally.consistent(),
    ensures
        ({
            let lines = summary_texts(tally, codegen);
            let (passed, failed, none) = (tally.passed, tally.failed, tally.no_module);
            let whole = passed - tally.passed_incomplete;
            let whole_failed = failed - tally.failed_incomplete;
            &&& lines.len() == 7
            &&& occurs(
                decimal(passed as nat) + "/"@ + decimal((passed + failed) as nat)
                    + " files declaring a module passed "@,
                lines[0],
            )
            &&& occurs(decimal(none as nat), lines[1])
            &&& occurs(
                decimal(passed as nat) + " passes, "@ + decimal(tally.passed_incomplete as nat)
                    + " are on an incomplete module"@,
                lines[2],
            )
            &&& occurs(decimal(whole as nat) + " are self-contained"@, lines[2])
            &&& occurs(
                decimal(tally.failed_incomplete as nat) + " of the "@ + decimal(failed as nat),
                lines[3],
            )
            &&& occurs(decimal(whole as nat) + "/"@ + decimal((whole + whole_failed) as nat), lines[4])
            &&& occurs(
                decimal(passed as nat) + " passes, "@ + decimal(tally.passed_approximated as nat)
                    + " use an operator"@,
                lines[5],
            )
            &&& occurs(
                decimal((passed + failed + none) as nat) + " file(s) scanned in total"@,
                lines[6],
            )
        }),
{
    let whole = (tally.passed - tally.passed_incomplete) as nat;
    let rest = (tally.failed - tally.failed_incomplete) as nat;
    let p = decimal(tally.passed as nat);
    let stages = if codegen {
        "the frontend + codegen (lex → parse → elaborate → build_instance)"@
    } else {
        "the frontend (lex → parse → elaborate)"@
    };
    lemma_ratio_line(p, decimal((tally.passed + tally.failed) as nat), stages);
    lemma_middle(
        "  "@,
        decimal(tally.no_module as nat),
        " further file(s) declare no module at all (macro/nature headers, statement fragments) — not checkable models, and no longer counted as passes"@,
    );
    lemma_incomplete_line(p, decimal(tally.passed_incomplete as nat), decimal(whole));
    lemma_failure_line(decimal(tally.failed_incomplete as nat), decimal(tally.failed as nat));
    lemma_whole_line(decimal(whole), decimal(whole + rest));
    lemma_approximated_line(p, decimal(tally.passed_approximated as nat));
    lemma_total_line(decimal((tally.passed + tally.failed + tally.no_module) as nat));
}

proof fn lemma_middle(a: Seq<char>, b: Seq<char>, c: Seq<char>)
    ensures
        occurs(b, a + b + c),
{
}

proof fn lemma_ratio_line(p: Seq<char>, both: Seq<char>, stages: Seq<char>)
    ensures
        occurs(
            p + "/"@ + both + " files declaring a module passed "@,
            "\n"@ + p + "/"@ + both + " files declaring a module passed "@ + stages,
        ),
{
    lemma_part(
        "\n"@,
        p + "/"@ + both + " files declaring a module passed "@,
        stages,
        "\n"@ + p + "/"@ + both + " files declaring a module passed "@ + stages,
    );
}

proof fn lemma_incomplete_line(p: Seq<char>, pi: Seq<char>, whole: Seq<char>)
    ensures
        ({
            let line = "  of the "@ + p + " passes, "@ + pi
                + " are on an incomplete module (an unresolved `include was dropped); "@ + whole
                + " are self-contained"@;
            &&& occurs(p + " passes, "@ + pi + " are on an incomplete module"@, line)
            &&& occurs(whole + " are self-contained"@, line)
        }),
{
    let line = "  of the "@ + p + " passes, "@ + pi
        + " are on an incomplete module (an unresolved `include was dropped); "@ + whole
        + " are self-contained"@;
    lemma_split_literals();
    lemma_part(
        "  of the "@,
        p + " passes, "@ + pi + " are on an incomplete module"@,
        " (an unresolved `include was dropped); "@ + whole + " are self-contained"@,
        line,
    );
    lemma_part(
        "  of the "@ + p + " passes, "@ + pi
            + " are on an incomplete module (an unresolved `include was dropped); "@,
        whole + " are self-contained"@,
        Seq::empty(),
        line,
    );
}

proof fn lemma_failure_line(fi: Seq<char>, f: Seq<char>)
    ensures
        occurs(
            fi + " of the "@ + f,
            "  "@ + fi + " of the "@ + f
                + " failures also dropped an unresolved `include (truncated distributions, not gaps)"@,
        ),
{
    lemma_part(
        "  "@,
        fi + " of the "@ + f,
        " failures also dropped an unresolved `include (truncated distributions, not gaps)"@,
        "  "@ + fi + " of the "@ + f
            + " failures also dropped an unresolved `include (truncated distributions, not gaps)"@,
    );
}

proof fn lemma_whole_line(whole: Seq<char>, all: Seq<char>)
    ensures
        occurs(
            whole + "/"@ + all,
            "  => self-contained files declaring a module: "@ + whole + "/"@ + all,
        ),
{
    lemma_part(
        "  => self-contained files declaring a module: "@,
        whole + "/"@ + all,
        Seq::empty(),
        "  => self-contained files declaring a module: "@ + whole + "/"@ + all,
    );
}

proof fn lemma_approximated_line(p: Seq<char>, pa: Seq<char>)
    ensures
        occurs(
            p + " passes, "@ + pa + " use an operator"@,
            "  of the "@ + p + " passes, "@ + pa
                + " use an operator approximated in transient (absdelay)"@,
        ),
{
    lemma_split_literals();
    lemma_part(
        "  of the "@,
        p + " passes, "@ + pa + " use an operator"@,
        " approximated in transient (absdelay)"@,
        "  of the "@ + p + " passes, "@ + pa
            + " use an operator approximated in transient (absdelay)"@,
    );
}

proof fn lemma_total_line(total: Seq<char>)
    ensures
        occurs(
            total + " file(s) scanned in total"@,
            "  "@ + total + " file(s) scanned in total"@,
        ),
{
    lemma_part(
        "  "@,
        total + " file(s) scanned in total"@,
        Seq::empty(),
        "  "@ + total + " file(s) scanned in total"@,
    );
}

proof fn lemma_split_literals()
    ensures
        " are on an incomplete module (an unresolved `include was dropped); "@
            == " are on an incomplete module"@ + " (an unresolved `include was dropped); "@,
        " use an operator approximated in transient (absdelay)"@ == " use an operator"@
            + " approximated in transient (absdelay)"@,
{
    reveal_strlit(" are on an incomplete module (an unresolved `include was dropped); ");
    reveal_strlit(" are on an incomplete module");
    reveal_strlit(" (an unresolved `include was dropped); ");
    reveal_strlit(" use an operator approximated in transient (absdelay)");
    reveal_strlit(" use an operator");
    reveal_strlit(" approximated in transient (absdelay)");
    assert(" are on an incomplete module (an unresolved `include was dropped); "@
        =~= " are on an incomplete module"@ + " (an unresolved `include was dropped); "@);
    assert(" use an operator approximated in transient (absdelay)"@ =~= " use an operator"@
        + " approximated in transient (absdelay)"@);
}

/// A file that did not come to be parsed has a line of its own that names it and gives its
/// error; one that cannot declare a module has one that says so.
pub proof fn every_unparsed_file_is_reported(
    group: &Vec<CheckedFile>,
    codegen: bool,
    r: (CheckTally, Vec<Line>),
    k: int,
)
    requires
        call_ensures(check_group, (group, codegen), r),
        0 <= k < group@.len(),
    ensures
        !may_declare(group@[k]) ==> is_listed(
            said(r.1@),
            "  [none ] "@ + group@[k].path@ + ": declares no module"@,
        ),
        may_declare(group@[k]) ==> match group@[k].outcome {
            ParseOutcome::Unreadable { error } => is_listed(
                said(r.1@),
                "  [read ] "@ + group@[k].path@ + ": "@ + error@,
            ),
            ParseOutcome::NotPreprocessed { error, .. } => is_listed(
                said(r.1@),
                "  [pp   ] "@ + group@[k].path@ + ": "@ + error@,
            ),
            ParseOutcome::NotLexed { error, .. } => is_listed(
                said(r.1@),
                "  [lex  ] "@ + group@[k].path@ + ": "@ + error@,
            ),
            ParseOutcome::NotParsed { fault, .. } => is_listed(
                said(r.1@),
                "  [parse] "@ + group@[k].path@ + ": "@ + match fault {
                    FrontendFault::Refused(what) => "refused: "@ + what@,
                    FrontendFault::Other(text) => text@,
                },
            ),
            ParseOutcome::Parsed { .. } => true,
        },
{
    let f = group@[k];
    lemma_verdict(f, codegen);
    crate::check_laws::lemma_may_declare(f);
    let own = early_lines(f);
    if own.len() > 0 {
        let line = own[0];
        lemma_early(group@, k);
        let early = all_early(group@);
        let late = all_late(group@, codegen);
        let i = choose|i: int| 0 <= i < early.len() && early[i] == line;
        assert((early + late)[i] == line);
        let all = said(r.1@);
        assert(all[i] == line);
        let text = line->Listing_0;
        let nothing = Seq::<char>::empty();
        if !may_declare(f) {
            reveal_strlit(": declares no module (no `module` keyword in the source, and no `` `include `` to introduce one)");
            reveal_strlit(": declares no module");
            let word = "  [none ] "@ + f.path@ + ": declares no module"@;
            let tail = text.subrange(word.len() as int, text.len() as int);
            lemma_part(nothing, word, tail, text);
            assert(lists(all[i], word));
        } else {
            match f.outcome {
                ParseOutcome::Unreadable { error } => {
                    let word = "  [read ] "@ + f.path@ + ": "@ + error@;
                    lemma_part(nothing, word, nothing, text);
                    assert(lists(all[i], word));
                },
                ParseOutcome::NotPreprocessed { error, skipped } => {
                    let word = "  [pp   ] "@ + f.path@ + ": "@ + error@;
                    lemma_part(nothing, word, skipped_text(texts(skipped@)), text);
                    assert(lists(all[i], word));
                },
                ParseOutcome::NotLexed { error, skipped } => {
                    let word = "  [lex  ] "@ + f.path@ + ": "@ + error@;
                    lemma_part(nothing, word, skipped_text(texts(skipped@)), text);
                    assert(lists(all[i], word));
                },
                ParseOutcome::NotParsed { fault, skipped, .. } => {
                    let word = "  [parse] "@ + f.path@ + ": "@ + match fault {
                        FrontendFault::Refused(what) => "refused: "@ + what@,
                        FrontendFault::Other(text) => text@,
                    };
                    lemma_part(nothing, word, skipped_text(texts(skipped@)), text);
                    assert(lists(all[i], word));
                },
                ParseOutcome::Parsed { .. } => {},
            }
        }
    }
}

/// The line is one of the listing in which the word stands.
pub open spec fn lists(line: LineView, word: Seq<char>) -> bool {
    line matches LineView::Listing(text) && occurs(word, text)
}

/// Some line of the listing has the word in it.
pub open spec fn is_listed(lines: Seq<LineView>, word: Seq<char>) -> bool {
    exists|i: int| 0 <= i < lines.len() && lists(#[trigger] lines[i], word)
}

proof fn lemma_early(files: Seq<CheckedFile>, k: int)
    requires
        0 <= k < files.len(),
        early_lines(files[k]).len() > 0,
    ensures
        all_early(files).contains(early_lines(files[k])[0]),
    decreases files.len(),
{
    let before = all_early(files.drop_last());
    let own = early_lines(files.last());
    let line = early_lines(files[k])[0];
    if k == files.len() - 1 {
        assert((before + own)[before.len() as int] == line);
    } else {
        lemma_early(files.drop_last(), k);
        let i = choose|i: int| 0 <= i < before.len() && before[i] == line;
        assert((before + own)[i] == line);
    }
}

// ---- what an error says ---------------------------------------------------

/// The message about a circuit that cannot be built gives everything that the error holds,
/// in its own place: the names of the model, the device and the element, and the counts.
pub proof fn an_error_says_what_it_is_about<F: Fn(Real) -> String>(
    e: &BuildError,
    spell: F,
    r: String,
)
    requires
        call_ensures(BuildError::message::<F>, (e, spell), r),
    ensures
        match *e {
            BuildError::BadMultiplicity { name, value } => exists|t: String| #[trigger]
                call_ensures(spell, (value,), t) && occurs("`"@ + name@ + "="@ + t@, r@),
            BuildError::UnknownParameter { model, name, known } => occurs(
                model@ + "` has no parameter `"@ + name@ + "` (it declares: "@ + listed(texts(known@)),
                r@,
            ),
            BuildError::AmbiguousMultiplicity { model } => occurs(
                model@,
                r@,
            ),
            BuildError::LocalParameter { model, name } => occurs(
                model@ + "` declares `"@ + name@,
                r@,
            ),
            BuildError::TooManyTerminals { model, declared, connected } => occurs(
                model@ + "` declares "@ + decimal(declared as nat) + " port node(s), device connects "@ + decimal(connected as nat),
                r@,
            ),
            BuildError::PartialPort { model, connected, width, port } => occurs(
                model@ + "`: device connects "@ + decimal(connected as nat) + " terminal(s), which ends part-way through                  "@ + decimal(width as nat) + "-wide port #"@ + decimal(port as nat),
                r@,
            ),
            BuildError::RequiredPort { model, declared, connected, port, node } => occurs(
                model@ + "` declares "@ + decimal(declared as nat) + " port node(s), device connects "@ + decimal(connected as nat) + " — and port #"@ + decimal(port as nat) + "                  (`"@ + node@,
                r@,
            ),
            BuildError::TooFewTerminals { device, terminals, model } => occurs(
                device@ + "` is a "@ + decimal(terminals as nat) + "-terminal device line, but `"@ + model@,
                r@,
            ),
            BuildError::NeedsValue { device } => occurs(
                device@,
                r@,
            ),
            BuildError::TransistorTerminals { device, terminals } => occurs(
                device@ + "` (model `bjt`) needs exactly 3 terminals (c, b, e), found "@ + decimal(terminals as nat),
                r@,
            ),
            BuildError::UnknownModel { device, model } => occurs(
                device@ + "` references unknown model `"@ + model@,
                r@,
            ),
            BuildError::CouplingArity { device } => occurs(
                device@,
                r@,
            ),
            BuildError::NotAnInductor { device, element } => occurs(
                device@ + "` couples `"@ + element@,
                r@,
            ),
            BuildError::NoBranchRow { element } => occurs(
                element@,
                r@,
            ),
            BuildError::SelfCoupling { device, element } => occurs(
                device@ + "` couples `"@ + element@,
                r@,
            ),
            BuildError::NoControl { device } => occurs(
                device@,
                r@,
            ),
            BuildError::ControlWithoutCurrent { device, element } => occurs(
                device@ + "` is controlled by `"@ + element@,
                r@,
            ),
        },
{
    let nothing = Seq::<char>::empty();
    match *e {
        BuildError::BadMultiplicity { name, value } => {
            let t = choose|t: String| #[trigger]
                call_ensures(spell, (value,), t) && r@ == bad_multiplicity_text(name@, t@);
            let head = "instance multiplicity must be a positive, finite number, got "@;
            reveal_strlit("instance multiplicity must be a positive, finite number, got ");
            reveal_strlit("instance multiplicity must be a positive, finite number, got `");
            reveal_strlit("`");
            assert("instance multiplicity must be a positive, finite number, got `"@ =~= head + "`"@);
            let word = "`"@ + name@ + "="@ + t@;
            let size = (head.len() + word.len()) as int;
            lemma_part(head, word, r@.subrange(size, r@.len() as int), r@);
        },
        BuildError::UnknownParameter { model, name, known } => {
            lemma_part(
                "model `"@,
                model@ + "` has no parameter `"@ + name@ + "` (it declares: "@ + listed(texts(known@)),
                ")"@,
                r@,
            );
        },
        BuildError::AmbiguousMultiplicity { model } => {
            lemma_part(
                "model `"@,
                model@,
                "` declares its own parameter `mult`, so `mult=` on a device                          line is ambiguous: it could set that parameter or the instance                          multiplicity. Rename the model's parameter, or set the multiplicity                          with `m=` if the model declares no `m` either."@,
                r@,
            );
        },
        BuildError::LocalParameter { model, name } => {
            lemma_part(
                "model `"@,
                model@ + "` declares `"@ + name@,
                "` as a `localparam`, which a deck cannot                          set — a localparam is a module-internal constant (LRM 3.4.2)"@,
                r@,
            );
        },
        BuildError::TooManyTerminals { model, declared, connected } => {
            lemma_part(
                "model `"@,
                model@ + "` declares "@ + decimal(declared as nat) + " port node(s), device connects "@ + decimal(connected as nat),
                nothing,
                r@,
            );
        },
        BuildError::PartialPort { model, connected, width, port } => {
            lemma_part(
                "model `"@,
                model@ + "`: device connects "@ + decimal(connected as nat) + " terminal(s), which ends part-way through                  "@ + decimal(width as nat) + "-wide port #"@ + decimal(port as nat),
                " — a port is connected as a whole or not at all"@,
                r@,
            );
        },
        BuildError::RequiredPort { model, declared, connected, port, node } => {
            lemma_part(
                "model `"@,
                model@ + "` declares "@ + decimal(declared as nat) + " port node(s), device connects "@ + decimal(connected as nat) + " — and port #"@ + decimal(port as nat) + "                  (`"@ + node@,
                "`) is not optional: the model never asks `$port_connected` about it"@,
                r@,
            );
        },
        BuildError::TooFewTerminals { device, terminals, model } => {
            lemma_part(
                "`"@,
                device@ + "` is a "@ + decimal(terminals as nat) + "-terminal device line, but `"@ + model@,
                "` needs at least two nodes"@,
                r@,
            );
        },
        BuildError::NeedsValue { device } => {
            lemma_part(
                "device `"@,
                device@,
                "` needs a value"@,
                r@,
            );
        },
        BuildError::TransistorTerminals { device, terminals } => {
            lemma_part(
                "device `"@,
                device@ + "` (model `bjt`) needs exactly 3 terminals (c, b, e), found "@ + decimal(terminals as nat),
                nothing,
                r@,
            );
        },
        BuildError::UnknownModel { device, model } => {
            lemma_part(
                "device `"@,
                device@ + "` references unknown model `"@ + model@,
                "` (no compiled `--model` matched, and it is not a built-in primitive)"@,
                r@,
            );
        },
        BuildError::CouplingArity { device } => {
            lemma_part(
                "`"@,
                device@,
                "` must name exactly two inductors"@,
                r@,
            );
        },
        BuildError::NotAnInductor { device, element } => {
            lemma_part(
                "`"@,
                device@ + "` couples `"@ + element@,
                "`, which is not an inductor"@,
                r@,
            );
        },
        BuildError::NoBranchRow { element } => {
            lemma_part(
                "`"@,
                element@,
                "` has no branch row"@,
                r@,
            );
        },
        BuildError::SelfCoupling { device, element } => {
            lemma_part(
                "`"@,
                device@ + "` couples `"@ + element@,
                "` to itself"@,
                r@,
            );
        },
        BuildError::NoControl { device } => {
            lemma_part(
                "`"@,
                device@,
                "` names no controlling element"@,
                r@,
            );
        },
        BuildError::ControlWithoutCurrent { device, element } => {
            lemma_part(
                "`"@,
                device@ + "` is controlled by `"@ + element@,
                "`, which has no branch current to sense                      (only a voltage source, an inductor, or an `E`/`H` carries one)"@,
                r@,
            );
        },
    }
}

// ---- refusals -------------------------------------------------------------

/// A refusal is told line by line, each with the name of the program before it; under a
/// verdict its first line is left out and the others are indented.
pub proof fn a_refusal_is_told_line_by_line(
    block: &str,
    lines: Vec<String>,
    report: Vec<String>,
    detail: Vec<String>,
    i: int,
)
    requires
        call_ensures(lines_of, (block,), lines),
        call_ensures(refusal_report, (block,), report),
        call_ensures(refusal_detail, (block,), detail),
        0 <= i < lines@.len(),
    ensures
        report@.len() == lines@.len(),
        report@[i]@ == "[va-cli] "@ + lines@[i]@,
        detail@.len() == lines@.len() - 1,
        i > 0 ==> detail@[i - 1]@ == "        "@ + lines@[i]@,
{
    let all = texts(lines@);
    assert(all.len() == lines@.len() && all[i] == lines@[i]@);
    assert(texts(report@).len() == report@.len() && texts(detail@).len() == detail@.len());
    let whole = prefixed("[va-cli] "@, all, 0);
    assert(whole.len() == all.len());
    assert(whole[i] == "[va-cli] "@ + all.subrange(0, all.len() as int)[i]);
    assert(texts(report@)[i] == report@[i]@);
    let rest = prefixed("        "@, all, 1);
    if all.len() > 1 {
        assert(rest.len() == all.len() - 1);
    }
    if i > 0 {
        assert(rest[i - 1] == "        "@ + all.subrange(1, all.len() as int)[i - 1]);
        assert(texts(detail@)[i - 1] == detail@[i - 1]@);
    }
}

// ---- headings -------------------------------------------------------------

/// The headings of a report give its range in order, from where to where, and how many
/// points there are.
pub proof fn a_heading_gives_the_range(
    source: &str,
    from: &str,
    to: &str,
    by: &str,
    points: usize,
    sweep: String,
    transient: String,
    ac: String,
)
    requires
        call_ensures(sweep_heading, (source, from, to, by, points), sweep),
        call_ensures(transient_heading, (points, to), transient),
        call_ensures(ac_heading, (points, from, to), ac),
    ensures
        occurs(
            source@ + " from "@ + from@ + " to "@ + to@ + " step "@ + by@ + " ("@ + decimal(
                points as nat,
            ) + " points)"@,
            sweep@,
        ),
        occurs("("@ + decimal(points as nat) + " points, t=0 to t="@ + to@ + "s)"@, transient@),
        occurs(
            "("@ + decimal(points as nat) + " point(s), f="@ + from@ + " to "@ + to@ + " Hz)"@,
            ac@,
        ),
{
    lemma_heading_literals();
    let n = decimal(points as nat);
    let colon = seq![':'];
    lemma_part(
        "DC sweep "@,
        source@ + " from "@ + from@ + " to "@ + to@ + " step "@ + by@ + " ("@ + n + " points)"@,
        colon,
        sweep@,
    );
    lemma_part(
        "Transient analysis "@,
        "("@ + n + " points, t=0 to t="@ + to@ + "s)"@,
        colon,
        transient@,
    );
    lemma_part(
        "AC analysis "@,
        "("@ + n + " point(s), f="@ + from@ + " to "@ + to@ + " Hz)"@,
        colon,
        ac@,
    );
}

proof fn lemma_heading_literals()
    ensures
        " points):"@ == " points)"@ + seq![':'],
        "Transient analysis ("@ == "Transient analysis "@ + "("@,
        "s):"@ == "s)"@ + seq![':'],
        "AC analysis ("@ == "AC analysis "@ + "("@,
        " Hz):"@ == " Hz)"@ + seq![':'],
{
    reveal_strlit(" points):");
    reveal_strlit(" points)");
    reveal_strlit("Transient analysis (");
    reveal_strlit("Transient analysis ");
    reveal_strlit("(");
    reveal_strlit("s):");
    reveal_strlit("s)");
    reveal_strlit("AC analysis (");
    reveal_strlit("AC analysis ");
    reveal_strlit(" Hz):");
    reveal_strlit(" Hz)");
    assert(" points):"@ =~= " points)"@ + seq![':']);
    assert("Transient analysis ("@ =~= "Transient analysis "@ + "("@);
    assert("s):"@ =~= "s)"@ + seq![':']);
    assert("AC analysis ("@ =~= "AC analysis "@ + "("@);
    assert(" Hz):"@ =~= " Hz)"@ + seq![':']);
}

/// Whatever is said of the files of a directory is said in a run over all directories, and
/// the run closes with the summary of its tally.
pub proof fn a_run_says_what_each_group_does(
    groups: &Vec<Vec<CheckedFile>>,
    codegen: bool,
    r: (CheckTally, Vec<Line>),
    g: int,
    one: (CheckTally, Vec<Line>),
    line: LineView,
    summary: Vec<String>,
)
    requires
        call_ensures(check_models, (groups, codegen), r),
        0 <= g < groups@.len(),
        call_ensures(check_group, (&groups@[g], codegen), one),
        said(one.1@).contains(line),
        call_ensures(CheckTally::summary, (&r.0, codegen), summary),
    ensures
        said(r.1@).contains(line),
        r.1@.len() >= summary@.len(),
        forall|k: int|
            0 <= k < summary@.len() ==> said(r.1@)[r.1@.len() - summary@.len() + k]
                == LineView::Listing((#[trigger] summary@[k])@),
{
    let all = group_lines(groups@, codegen);
    let end = listing(summary_texts(r.0, codegen));
    assert(said(r.1@) == all + end);
    assert(said(r.1@).len() == r.1@.len());
    lemma_group_said(groups@, codegen, g, line);
    let i = choose|i: int| 0 <= i < all.len() && all[i] == line;
    assert((all + end)[i] == line);
    let said_last = texts(summary@);
    assert(said_last.len() == summary@.len() && end.len() == said_last.len());
    assert forall|k: int| 0 <= k < summary@.len() implies said(r.1@)[r.1@.len() - summary@.len() + k]
        == LineView::Listing((#[trigger] summary@[k])@) by {
        assert((all + end)[all.len() + k] == end[k]);
        assert(end[k] == LineView::Listing(said_last[k]));
        assert(said_last[k] == summary@[k]@);
    }
}

proof fn lemma_group_said(groups: Seq<Vec<CheckedFile>>, codegen: bool, g: int, line: LineView)
    requires
        0 <= g < groups.len(),
        (all_early(groups[g]@) + all_late(groups[g]@, codegen)).contains(line),
    ensures
        group_lines(groups, codegen).contains(line),
    decreases groups.len(),
{
    let before = group_lines(groups.drop_last(), codegen);
    let early = all_early(groups.last()@);
    let late = all_late(groups.last()@, codegen);
    let own = early + late;
    assert(group_lines(groups, codegen) =~= before + own);
    if g == groups.len() - 1 {
        let i = choose|i: int| 0 <= i < own.len() && own[i] == line;
        assert((before + own)[before.len() + i] == line);
    } else {
        lemma_group_said(groups.drop_last(), codegen, g, line);
        let i = choose|i: int| 0 <= i < before.len() && before[i] == line;
        assert((before + own)[i] == line);
    }
}

} // verus!
