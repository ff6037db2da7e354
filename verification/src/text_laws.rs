//! What the operations on texts undo and keep.
use crate::search::lemma_first_where_holds;
use crate::text::{
    ascii_lower, contains_text, decimal, decimal_text, digit_char, eq_ignoring_case, is_char,
    is_white_space, join, join_texts, lines, lines_of, place_before, replace_all, replaced, split,
    split_at_char, text_at_most, text_le, text_order, texts, trim, trimmed, without_return,
};
use vstd::prelude::*;

verus! {

// ---- numbers --------------------------------------------------------------

/// The number that a text of decimal digits spells.
pub open spec fn spelled(s: Seq<char>) -> int
    decreases s.len(),
{
    if s.len() == 0 {
        0
    } else {
        spelled(s.drop_last()) * 10 + (s.last() as int - '0' as int)
    }
}

/// The character is a decimal digit.
pub open spec fn is_digit(c: char) -> bool {
    '0' <= c && c <= '9'
}

proof fn lemma_decimal(n: nat)
    ensures
        spelled(decimal(n)) == n,
        decimal(n).len() >= 1,
        forall|i: int| 0 <= i < decimal(n).len() ==> is_digit(#[trigger] decimal(n)[i]),
        n >= 1 ==> decimal(n)[0] != '0',
    decreases n,
{
    reveal_with_fuel(spelled, 2);
    if n >= 10 {
        lemma_decimal(n / 10);
        assert(decimal(n).drop_last() =~= decimal(n / 10));
        assert forall|i: int| 0 <= i < decimal(n).len() implies is_digit(
            #[trigger] decimal(n)[i],
        ) by {
            if i < decimal(n / 10).len() {
                assert(decimal(n)[i] == decimal(n / 10)[i]);
            }
        }
        assert(decimal(n)[0] == decimal(n / 10)[0]);
    } else {
        assert(decimal(n) =~= seq![digit_char(n as int)]);
        assert(decimal(n).drop_last().len() == 0);
    }
}

/// The decimal spelling of a number reads back as the number, is made of digits, and does
/// not begin with a zero unless the number is one.
pub proof fn a_spelled_number_reads_back(n: u64, r: String)
    requires
        call_ensures(decimal_text, (n,), r),
    ensures
        spelled(r@) == n,
        r@.len() >= 1,
        forall|i: int| 0 <= i < r@.len() ==> is_digit(#[trigger] r@[i]),
        n > 0 ==> r@[0] != '0',
        n == 0 ==> r@.len() == 1,
{
    lemma_decimal(n as nat);
}

// ---- pieces ---------------------------------------------------------------

proof fn lemma_join_front(first: Seq<char>, rest: Seq<Seq<char>>, sep: Seq<char>)
    requires
        rest.len() > 0,
    ensures
        join(seq![first] + rest, sep) == first + sep + join(rest, sep),
    decreases rest.len(),
{
    let all = seq![first] + rest;
    assert(all.drop_last() =~= seq![first] + rest.drop_last());
    assert(all.last() == rest.last());
    if rest.len() == 1 {
        assert(all.drop_last() =~= seq![first]);
        reveal_with_fuel(join, 2);
        assert(join(all, sep) =~= first + sep + rest[0]);
    } else {
        lemma_join_front(first, rest.drop_last(), sep);
        assert(join(all, sep) =~= first + sep + join(rest, sep));
    }
}

/// The pieces of a text, joined again, give it back.
pub proof fn lemma_split(s: Seq<char>, sep: char)
    ensures
        split(s, sep).len() >= 1,
        join(split(s, sep), seq![sep]) == s,
        forall|i: int|
            0 <= i < split(s, sep).len() ==> !(#[trigger] split(s, sep)[i]).contains(sep),
    decreases s.len(),
{
    let holds = is_char(sep);
    lemma_first_where_holds(s, holds);
    let k = crate::search::first_where(s, holds);
    if k >= s.len() {
        assert(!s.contains(sep)) by {
            if s.contains(sep) {
                let i = choose|i: int| 0 <= i < s.len() && s[i] == sep;
                assert(!holds(s[i]));
            }
        }
    } else {
        let head = s.subrange(0, k);
        let tail = s.subrange(k + 1, s.len() as int);
        lemma_split(tail, sep);
        lemma_join_front(head, split(tail, sep), seq![sep]);
        assert(holds(s[k]));
        assert(s =~= head + seq![sep] + tail);
        assert(!head.contains(sep)) by {
            if head.contains(sep) {
                let i = choose|i: int| 0 <= i < head.len() && head[i] == sep;
                assert(!holds(s[i]));
            }
        }
        let all = split(s, sep);
        assert forall|i: int| 0 <= i < all.len() implies !(#[trigger] all[i]).contains(sep) by {
            if i > 0 {
                assert(all[i] == split(tail, sep)[i - 1]);
            }
        }
    }
}

/// The pieces of a text, joined by the character at which it was split, give the text
/// back, and the character stands in none of them.
pub proof fn joining_undoes_splitting(s: &str, sep: char, r: Vec<String>)
    requires
        call_ensures(split_at_char, (s, sep), r),
    ensures
        r@.len() >= 1,
        join(texts(r@), seq![sep]) == s@,
        forall|i: int| 0 <= i < r@.len() ==> !(#[trigger] r@[i])@.contains(sep),
{
    lemma_split(s@, sep);
    assert(texts(r@).len() == r@.len());
    assert forall|i: int| 0 <= i < r@.len() implies !(#[trigger] r@[i])@.contains(sep) by {
        assert(texts(r@)[i] == r@[i]@);
    }
}

/// Joined texts begin with the first of them and end with the last; of three or more the
/// others stand between them, joined in the same way.
pub proof fn joined_texts_keep_their_order(items: &Vec<String>, sep: &str, r: String) -> (middle: Seq<
    char,
>)
    requires
        call_ensures(join_texts, (items, sep), r),
    ensures
        items@.len() == 0 ==> r@.len() == 0,
        items@.len() == 1 ==> r@ == items@[0]@,
        items@.len() == 2 ==> r@ == items@[0]@ + sep@ + items@[1]@,
        items@.len() > 2 ==> {
            &&& r@ == items@[0]@ + sep@ + middle + sep@ + items@[items@.len() - 1]@
            &&& items@.len() == 3 ==> middle == items@[1]@
        },
{
    let all = texts(items@);
    let n = items@.len() as int;
    assert(all.len() == n);
    reveal_with_fuel(join, 2);
    if n <= 2 {
        if n == 2 {
            assert(all.drop_last() =~= seq![items@[0]@]);
        }
        Seq::empty()
    } else {
        let first = items@[0]@;
        let inner = all.subrange(1, n - 1);
        let middle = join(inner, sep@);
        assert(all.drop_last() =~= seq![first] + inner);
        lemma_join_front(first, inner, sep@);
        middle
    }
}

/// A text with replacements is made of the same pieces as the text without them: the one
/// has the new word between each two of them, the other the old one, which stands in no
/// piece.
pub proof fn replacing_exchanges_the_word_between_pieces(
    s: &str,
    from: &str,
    to: &str,
    r: String,
) -> (pieces: Seq<Seq<char>>)
    requires
        call_ensures(replaced, (s, from, to), r),
        from@.len() > 0,
    ensures
        pieces.len() >= 1,
        join(pieces, from@) == s@,
        join(pieces, to@) == r@,
        forall|i: int| 0 <= i < pieces.len() ==> !contains_text(#[trigger] pieces[i], from@),
{
    lemma_replace(s@, from@, to@)
}

proof fn lemma_replace(s: Seq<char>, from: Seq<char>, to: Seq<char>) -> (pieces: Seq<Seq<char>>)
    requires
        from.len() > 0,
    ensures
        pieces.len() >= 1,
        join(pieces, from) == s,
        join(pieces, to) == replace_all(s, from, to),
        forall|i: int| 0 <= i < pieces.len() ==> !contains_text(#[trigger] pieces[i], from),
        pieces[0].len() <= s.len(),
        s.subrange(0, pieces[0].len() as int) == pieces[0],
    decreases s.len(),
{
    if s.len() < from.len() {
        assert(s.subrange(0, s.len() as int) =~= s);
        seq![s]
    } else if s.subrange(0, from.len() as int) == from {
        let tail = s.subrange(from.len() as int, s.len() as int);
        let rest = lemma_replace(tail, from, to);
        let nothing = Seq::<char>::empty();
        lemma_join_front(nothing, rest, from);
        lemma_join_front(nothing, rest, to);
        assert(s =~= nothing + from + tail);
        assert(replace_all(s, from, to) =~= nothing + to + replace_all(tail, from, to));
        assert(s.subrange(0, 0) =~= nothing);
        let pieces = seq![nothing] + rest;
        assert forall|i: int| 0 <= i < pieces.len() implies !contains_text(
            #[trigger] pieces[i],
            from,
        ) by {
            if i > 0 {
                assert(pieces[i] == rest[i - 1]);
            }
        }
        pieces
    } else {
        let tail = s.drop_first();
        let rest = lemma_replace(tail, from, to);
        let head = seq![s[0]] + rest[0];
        let others = rest.subrange(1, rest.len() as int);
        let pieces = seq![head] + others;
        assert(rest =~= seq![rest[0]] + others);
        if others.len() > 0 {
            lemma_join_front(head, others, from);
            lemma_join_front(head, others, to);
            lemma_join_front(rest[0], others, from);
            lemma_join_front(rest[0], others, to);
        } else {
            assert(pieces =~= seq![head]);
            assert(rest =~= seq![rest[0]]);
        }
        assert(join(pieces, from) =~= seq![s[0]] + join(rest, from));
        assert(join(pieces, to) =~= seq![s[0]] + join(rest, to));
        assert(s =~= seq![s[0]] + tail);
        assert(s.subrange(0, head.len() as int) =~= head) by {
            assert forall|i: int| 0 <= i < head.len() implies s[i] == head[i] by {
                if i > 0 {
                    assert(tail.subrange(0, rest[0].len() as int)[i - 1] == rest[0][i - 1]);
                }
            }
        }
        assert(!contains_text(head, from)) by {
            if contains_text(head, from) {
                let i = choose|i: int|
                    0 <= i <= head.len() - from.len() && #[trigger] head.subrange(
                        i,
                        i + from.len(),
                    ) == from;
                if i == 0 {
                    assert(s.subrange(0, from.len() as int) =~= head.subrange(
                        0,
                        from.len() as int,
                    ));
                } else {
                    assert(rest[0].subrange(i - 1, i - 1 + from.len()) =~= head.subrange(
                        i,
                        i + from.len(),
                    ));
                    assert(contains_text(rest[0], from));
                }
            }
        }
        assert forall|i: int| 0 <= i < pieces.len() implies !contains_text(
            #[trigger] pieces[i],
            from,
        ) by {
            if i > 0 {
                assert(pieces[i] == rest[i]);
            }
        }
        pieces
    }
}

// ---- white space and case -------------------------------------------------

/// Every character of the text is white space.
pub open spec fn is_blank(s: Seq<char>) -> bool {
    forall|i: int| 0 <= i < s.len() ==> is_white_space(#[trigger] s[i])
}

proof fn lemma_trim(s: Seq<char>) -> (around: (Seq<char>, Seq<char>))
    ensures
        s == around.0 + trim(s) + around.1,
        is_blank(around.0),
        is_blank(around.1),
        trim(s).len() > 0 ==> !is_white_space(trim(s)[0]) && !is_white_space(trim(s).last()),
    decreases s.len(),
{
    if s.len() > 0 && is_white_space(s[0]) {
        let (before, after) = lemma_trim(s.drop_first());
        assert(trim(s) == trim(s.drop_first()));
        assert(s =~= seq![s[0]] + s.drop_first());
        let more = seq![s[0]] + before;
        assert(s =~= more + trim(s) + after);
        (more, after)
    } else if s.len() > 0 && is_white_space(s.last()) {
        let (before, after) = lemma_trim(s.drop_last());
        assert(trim(s) == trim(s.drop_last()));
        assert(s =~= s.drop_last().push(s.last()));
        let more = after.push(s.last());
        assert(s =~= before + trim(s) + more);
        (before, more)
    } else {
        let nothing = Seq::<char>::empty();
        assert(s =~= nothing + trim(s) + nothing);
        (nothing, nothing)
    }
}

/// A trimmed text lacks white space at its two ends, and nothing else.
pub proof fn trimming_takes_white_space_only(s: &str, r: &str) -> (around: (Seq<char>, Seq<char>))
    requires
        call_ensures(trimmed, (s,), r),
    ensures
        s@ == around.0 + r@ + around.1,
        is_blank(around.0),
        is_blank(around.1),
        r@.len() > 0 ==> !is_white_space(r@[0]) && !is_white_space(r@[r@.len() - 1]),
{
    lemma_trim(s@)
}

/// The two characters are the same, or the same letter in its two cases.
pub open spec fn same_letter(a: char, b: char) -> bool {
    ||| a == b
    ||| 'A' <= a && a <= 'Z' && b as int == a as int + 32
    ||| 'A' <= b && b <= 'Z' && a as int == b as int + 32
}

/// Two texts are the same but for case exactly if they are as long and have at each place
/// the same letter.
pub proof fn texts_are_the_same_letter_by_letter(a: &str, b: &str, r: bool)
    requires
        call_ensures(eq_ignoring_case, (a, b), r),
    ensures
        r <==> a@.len() == b@.len() && forall|i: int|
            0 <= i < a@.len() ==> same_letter(#[trigger] a@[i], b@[i]),
{
    assert forall|x: char, y: char| #![trigger same_letter(x, y)] (ascii_lower(x) == ascii_lower(y))
        == same_letter(x, y) by {
        lemma_letter(x, y);
    }
    if a@.len() == b@.len() && forall|i: int|
        0 <= i < a@.len() ==> same_letter(#[trigger] a@[i], b@[i]) {
        assert forall|i: int| 0 <= i < a@.len() implies ascii_lower(#[trigger] a@[i])
            == ascii_lower(b@[i]) by {
            assert(same_letter(a@[i], b@[i]));
        }
    }
}

proof fn lemma_letter(x: char, y: char)
    ensures
        (ascii_lower(x) == ascii_lower(y)) == same_letter(x, y),
{
    if 'A' <= x && x <= 'Z' {
        assert((x as u32 + 32) as char as int == x as int + 32);
    }
    if 'A' <= y && y <= 'Z' {
        assert((y as u32 + 32) as char as int == y as int + 32);
    }
}

/// One text comes before another, or is the same, exactly if it is the beginning of the
/// other or has the smaller character at the first place where they differ.
pub proof fn texts_are_in_dictionary_order(a: &str, b: &str, r: bool)
    requires
        call_ensures(text_at_most, (a, b), r),
    ensures
        r <==> (exists|k: int| #[trigger] decides(a@, b@, k)),
{
    lemma_dictionary(a@, b@);
}

/// The texts agree up to this place, where the first one ends or has the smaller
/// character.
pub open spec fn decides(a: Seq<char>, b: Seq<char>, k: int) -> bool {
    &&& 0 <= k <= a.len()
    &&& k <= b.len()
    &&& a.subrange(0, k) == b.subrange(0, k)
    &&& k == a.len() || (k < b.len() && a[k] < b[k])
}

proof fn lemma_dictionary(a: Seq<char>, b: Seq<char>)
    ensures
        text_le(a, b) <==> (exists|k: int| #[trigger] decides(a, b, k)),
    decreases a.len(),
{
    if a.len() == 0 {
        assert(a.subrange(0, 0) =~= b.subrange(0, 0));
        assert(decides(a, b, 0));
    } else if b.len() > 0 {
        if a[0] != b[0] {
            if a[0] < b[0] {
                assert(a.subrange(0, 0) =~= b.subrange(0, 0));
                assert(decides(a, b, 0));
            }
            assert forall|k: int| #[trigger] decides(a, b, k) implies a[0] < b[0] by {
                if k > 0 {
                    assert(a.subrange(0, k)[0] == b.subrange(0, k)[0]);
                }
            }
        } else {
            let (x, y) = (a.drop_first(), b.drop_first());
            lemma_dictionary(x, y);
            if text_le(x, y) {
                let k = choose|k: int| #[trigger] decides(x, y, k);
                assert(a.subrange(0, k + 1) =~= seq![a[0]] + x.subrange(0, k));
                assert(b.subrange(0, k + 1) =~= seq![b[0]] + y.subrange(0, k));
                assert(decides(a, b, k + 1));
            }
            assert forall|k: int| #[trigger] decides(a, b, k) implies text_le(x, y) by {
                if k > 0 {
                    assert(x.subrange(0, k - 1) =~= a.subrange(0, k).drop_first());
                    assert(y.subrange(0, k - 1) =~= b.subrange(0, k).drop_first());
                    assert(decides(x, y, k - 1));
                }
            }
        }
    } else {
        assert forall|k: int| #[trigger] decides(a, b, k) implies false by {}
    }
}

/// A single character is trimmed away exactly if it is white space: a tab, a line feed or
/// one of their kin, a space, a next line, or one of the other spaces and separators.
pub proof fn white_space_is_trimmed_away(s: &str, r: &str)
    requires
        call_ensures(trimmed, (s,), r),
        s@.len() == 1,
    ensures
        r@.len() == 0 <==> {
            let u = s@[0] as u32;
            ||| u == 9 || u == 10 || u == 11 || u == 12 || u == 13
            ||| u == 32 || u == 133 || u == 160 || u == 5760
            ||| 8192 <= u && u <= 8202
            ||| u == 8232 || u == 8233 || u == 8239 || u == 8287 || u == 12288
        },
        r@.len() == 1 ==> r@ == s@,
{
    reveal(is_white_space);
    reveal_with_fuel(trim, 2);
}

// ---- lines ----------------------------------------------------------------

proof fn lemma_lines(s: Seq<char>)
    requires
        !s.contains('\r'),
    ensures
        s.len() == 0 <==> lines(s).len() == 0,
        s == join(lines(s), seq!['\n']) || s == join(lines(s), seq!['\n']) + seq!['\n'],
        forall|i: int| 0 <= i < lines(s).len() ==> !(#[trigger] lines(s)[i]).contains('\n'),
    decreases s.len(),
{
    let holds = is_char('\n');
    lemma_first_where_holds(s, holds);
    let k = crate::search::first_where(s, holds);
    let feed = seq!['\n'];
    if s.len() == 0 {
        assert(s =~= join(lines(s), feed));
    } else if k >= s.len() {
        assert(!s.contains('\n')) by {
            if s.contains('\n') {
                let i = choose|i: int| 0 <= i < s.len() && s[i] == '\n';
                assert(!holds(s[i]));
            }
        }
    } else {
        let head = s.subrange(0, k);
        let tail = s.subrange(k + 1, s.len() as int);
        assert(without_return(head) == head) by {
            if head.len() > 0 {
                assert(head.last() == s[k - 1]);
                assert(s.contains(s[k - 1]));
            }
        }
        assert(!tail.contains('\r')) by {
            if tail.contains('\r') {
                let i = choose|i: int| 0 <= i < tail.len() && tail[i] == '\r';
                assert(s[k + 1 + i] == '\r');
            }
        }
        lemma_lines(tail);
        let rest = lines(tail);
        let all = lines(s);
        assert(all =~= seq![head] + rest);
        assert(holds(s[k]));
        assert(s =~= head + feed + tail);
        if rest.len() > 0 {
            lemma_join_front(head, rest, feed);
            if tail == join(rest, feed) {
                assert(s =~= join(all, feed));
            } else {
                assert(s =~= join(all, feed) + feed);
            }
        } else {
            assert(all =~= seq![head]);
            assert(s =~= join(all, feed) + feed);
        }
        assert(!head.contains('\n')) by {
            if head.contains('\n') {
                let i = choose|i: int| 0 <= i < head.len() && head[i] == '\n';
                assert(!holds(s[i]));
            }
        }
        assert forall|i: int| 0 <= i < all.len() implies !(#[trigger] all[i]).contains('\n') by {
            if i > 0 {
                assert(all[i] == rest[i - 1]);
            }
        }
    }
}

/// The lines of a text without carriage returns, joined by line feeds, give the text back,
/// but for a line feed at its end, and no line has one in it.
pub proof fn joining_lines_gives_the_text_back(s: &str, r: Vec<String>)
    requires
        call_ensures(lines_of, (s,), r),
        !s@.contains('\r'),
    ensures
        s@.len() == 0 <==> r@.len() == 0,
        s@ == join(texts(r@), seq!['\n']) || s@ == join(texts(r@), seq!['\n']) + seq!['\n'],
        forall|i: int| 0 <= i < r@.len() ==> !(#[trigger] r@[i])@.contains('\n'),
{
    lemma_lines(s@);
    assert(texts(r@).len() == r@.len());
    assert forall|i: int| 0 <= i < r@.len() implies !(#[trigger] r@[i])@.contains('\n') by {
        assert(texts(r@)[i] == r@[i]@);
    }
}

/// The places of texts in dictionary order: every place once, a text that comes before
/// another one first, and equal ones in their own order.
pub proof fn texts_are_listed_in_order(items: &Vec<String>, r: Vec<usize>, i: int, j: int)
    requires
        call_ensures(text_order, (items,), r),
        0 <= i < j < r@.len(),
    ensures
        r@.len() == items@.len(),
        r@[i] < items@.len() && r@[j] < items@.len(),
        r@[i] != r@[j],
        exists|k: int| #[trigger] decides(items@[r@[i] as int]@, items@[r@[j] as int]@, k),
        items@[r@[i] as int]@ == items@[r@[j] as int]@ ==> r@[i] < r@[j],
{
    let all = texts(items@);
    assert(all.len() == items@.len());
    let (a, b) = (r@[i], r@[j]);
    assert(a < all.len() && b < all.len());
    assert(place_before(all, a, b));
    assert(all[a as int] == items@[a as int]@ && all[b as int] == items@[b as int]@);
    lemma_dictionary(all[a as int], all[b as int]);
    assert(a != b);
}

} // verus!
