//! Text: equality, trimming, searching, sorting and the decimal spelling of a
//! number, each stated over the characters of a string.
use crate::search::{first_where, lemma_first_where};
use vstd::prelude::*;
use vstd::utf8::*;

verus! {

/// The character of a decimal digit.
pub open spec fn digit_char(d: int) -> char {
    (48 + d) as char
}

/// The decimal spelling of a natural number, without leading zeros.
pub open spec fn decimal(n: nat) -> Seq<char>
    decreases n,
{
    if n < 10 {
        seq![digit_char(n as int)]
    } else {
        decimal(n / 10).push(digit_char((n % 10) as int))
    }
}

/// The lower-case form of an ASCII letter; every other character stands for itself.
pub open spec fn ascii_lower(c: char) -> char {
    if 'A' <= c && c <= 'Z' {
        (c as u32 + 32) as char
    } else {
        c
    }
}

/// Two texts that differ at most in the case of their ASCII letters.
pub open spec fn same_ignoring_case(a: Seq<char>, b: Seq<char>) -> bool {
    &&& a.len() == b.len()
    &&& forall|i: int| 0 <= i < a.len() ==> ascii_lower(#[trigger] a[i]) == ascii_lower(b[i])
}

/// Whether a character has the Unicode property `White_Space`.
#[verifier::opaque]
pub open spec fn is_white_space(c: char) -> bool {
    let u = c as u32;
    ||| 0x9 <= u <= 0xd
    ||| u == 0x20
    ||| u == 0x85
    ||| u == 0xa0
    ||| u == 0x1680
    ||| 0x2000 <= u <= 0x200a
    ||| u == 0x2028
    ||| u == 0x2029
    ||| u == 0x202f
    ||| u == 0x205f
    ||| u == 0x3000
}

/// A text without the white space at its two ends.
pub open spec fn trim(s: Seq<char>) -> Seq<char>
    decreases s.len(),
{
    if s.len() > 0 && is_white_space(s[0]) {
        trim(s.drop_first())
    } else if s.len() > 0 && is_white_space(s.last()) {
        trim(s.drop_last())
    } else {
        s
    }
}

/// Whether `needle` stands somewhere in `hay` as a contiguous piece.
pub open spec fn contains_text(hay: Seq<char>, needle: Seq<char>) -> bool {
    exists|i: int|
        0 <= i <= hay.len() - needle.len() && #[trigger] hay.subrange(i, i + needle.len())
            == needle
}

/// The items one after the other, with `sep` between two of them.
pub open spec fn join(items: Seq<Seq<char>>, sep: Seq<char>) -> Seq<char>
    decreases items.len(),
{
    if items.len() == 0 {
        Seq::empty()
    } else if items.len() == 1 {
        items[0]
    } else {
        join(items.drop_last(), sep) + sep + items.last()
    }
}

/// The views of a sequence of strings.
pub open spec fn texts(items: Seq<String>) -> Seq<Seq<char>> {
    items.map_values(|s: String| s@)
}

/// Dictionary order by code point.
pub open spec fn text_le(a: Seq<char>, b: Seq<char>) -> bool
    decreases a.len(),
{
    if a.len() == 0 {
        true
    } else if b.len() == 0 {
        false
    } else if a[0] != b[0] {
        a[0] < b[0]
    } else {
        text_le(a.drop_first(), b.drop_first())
    }
}

/// A sequence of texts in dictionary order.
pub open spec fn is_sorted(items: Seq<Seq<char>>) -> bool {
    forall|i: int, j: int| 0 <= i < j < items.len() ==> text_le(items[i], items[j])
}

/// `sorted` holds the items of `items`, each as often, in dictionary order.
pub open spec fn is_sorting_of(sorted: Seq<Seq<char>>, items: Seq<Seq<char>>) -> bool {
    &&& is_sorted(sorted)
    &&& sorted.to_multiset() == items.to_multiset()
}

/// Two texts are the same text.
pub fn same_text(a: &str, b: &str) -> (r: bool)
    ensures
        r == (a@ == b@),
{
    let x = a.as_bytes();
    let y = b.as_bytes();
    proof {
        encode_utf8_decode_utf8(a@);
        encode_utf8_decode_utf8(b@);
    }
    if x.len() != y.len() {
        return false;
    }
    let mut i: usize = 0;
    while i < x.len()
        invariant
            i <= x@.len(),
            x@.len() == y@.len(),
            x@ == encode_utf8(a@),
            y@ == encode_utf8(b@),
            forall|j: int| 0 <= j < i ==> x@[j] == y@[j],
        decreases x@.len() - i,
    {
        if x[i] != y[i] {
            return false;
        }
        i += 1;
    }
    assert(x@ =~= y@);
    true
}

/// The characters of a text.
pub fn chars_of(s: &str) -> (r: Vec<char>)
    ensures
        r@ == s@,
{
    let mut r: Vec<char> = Vec::new();
    for c in it: s.chars()
        invariant
            it.seq() == s@,
            r@ == s@.subrange(0, it.index() as int),
    {
        r.push(c);
    }
    assert(r@ =~= s@);
    r
}

fn digit_text(d: u64) -> (r: &'static str)
    requires
        d < 10,
    ensures
        r@ == seq![digit_char(d as int)],
{
    proof {
        reveal_strlit("0");
        reveal_strlit("1");
        reveal_strlit("2");
        reveal_strlit("3");
        reveal_strlit("4");
        reveal_strlit("5");
        reveal_strlit("6");
        reveal_strlit("7");
        reveal_strlit("8");
        reveal_strlit("9");
    }
    let r = if d == 0 {
        "0"
    } else if d == 1 {
        "1"
    } else if d == 2 {
        "2"
    } else if d == 3 {
        "3"
    } else if d == 4 {
        "4"
    } else if d == 5 {
        "5"
    } else if d == 6 {
        "6"
    } else if d == 7 {
        "7"
    } else if d == 8 {
        "8"
    } else {
        "9"
    };
    assert(r@ =~= seq![digit_char(d as int)]);
    r
}

/// The decimal spelling of `n`.
pub fn decimal_text(n: u64) -> (r: String)
    ensures
        r@ == decimal(n as nat),
    decreases n,
{
    if n < 10 {
        digit_text(n).to_owned()
    } else {
        let mut r = decimal_text(n / 10);
        r.append(digit_text(n % 10));
        assert(r@ =~= decimal(n as nat));
        r
    }
}

fn lower(c: char) -> (r: char)
    ensures
        r == ascii_lower(c),
{
    if 'A' <= c && c <= 'Z' {
        let u: u8 = c as u8;
        (u + 32) as char
    } else {
        c
    }
}

/// Equality up to the case of ASCII letters.
pub fn eq_ignoring_case(a: &str, b: &str) -> (r: bool)
    ensures
        r == same_ignoring_case(a@, b@),
{
    let x = chars_of(a);
    let y = chars_of(b);
    if x.len() != y.len() {
        return false;
    }
    let mut i: usize = 0;
    while i < x.len()
        invariant
            i <= x@.len(),
            x@.len() == y@.len(),
            x@ == a@,
            y@ == b@,
            forall|j: int| 0 <= j < i ==> ascii_lower(#[trigger] x@[j]) == ascii_lower(y@[j]),
        decreases x@.len() - i,
    {
        if lower(x[i]) != lower(y[i]) {
            assert(ascii_lower(a@[i as int]) != ascii_lower(b@[i as int]));
            return false;
        }
        i += 1;
    }
    true
}

fn white_space(c: char) -> (r: bool)
    ensures
        r == is_white_space(c),
{
    reveal(is_white_space);
    let u: u32 = c as u32;
    (0x9 <= u && u <= 0xd) || u == 0x20 || u == 0x85 || u == 0xa0 || u == 0x1680 || (0x2000 <= u
        && u <= 0x200a) || u == 0x2028 || u == 0x2029 || u == 0x202f || u == 0x205f || u == 0x3000
}

/// The text without the white space at its two ends.
pub fn trimmed(s: &str) -> (r: &str)
    ensures
        r@ == trim(s@),
{
    let cs = chars_of(s);
    let mut lo: usize = 0;
    let mut hi: usize = cs.len();
    assert(s@.subrange(0, hi as int) =~= s@);
    while lo < hi && white_space(cs[lo])
        invariant
            lo <= hi <= cs@.len(),
            cs@ == s@,
            trim(s@) == trim(s@.subrange(lo as int, hi as int)),
        decreases hi - lo,
    {
        assert(s@.subrange(lo as int, hi as int).drop_first() =~= s@.subrange(
            lo + 1,
            hi as int,
        ));
        lo += 1;
    }
    while lo < hi && white_space(cs[hi - 1])
        invariant
            lo <= hi <= cs@.len(),
            cs@ == s@,
            lo < hi ==> !is_white_space(s@[lo as int]),
            trim(s@) == trim(s@.subrange(lo as int, hi as int)),
        decreases hi - lo,
    {
        assert(s@.subrange(lo as int, hi as int).drop_last() =~= s@.subrange(
            lo as int,
            hi - 1,
        ));
        hi -= 1;
    }
    s.substring_char(lo, hi)
}

/// Whether `needle` stands somewhere in `hay`.
pub fn has_text(hay: &str, needle: &str) -> (r: bool)
    ensures
        r == contains_text(hay@, needle@),
{
    let h = chars_of(hay);
    let n = chars_of(needle);
    if n.len() > h.len() {
        return false;
    }
    let mut i: usize = 0;
    while i <= h.len() - n.len()
        invariant
            h@ == hay@,
            n@ == needle@,
            n@.len() <= h@.len() <= usize::MAX,
            i <= h@.len() - n@.len() + 1,
            forall|k: int| 0 <= k < i ==> #[trigger] hay@.subrange(k, k + needle@.len()) != needle@,
        decreases h@.len() - n@.len() + 1 - i,
    {
        let mut j: usize = 0;
        while j < n.len() && h[i + j] == n[j]
            invariant
                h@ == hay@,
                n@ == needle@,
                h@.len() <= usize::MAX,
                i <= h@.len() - n@.len(),
                j <= n@.len(),
                forall|k: int| 0 <= k < j ==> hay@[i + k] == needle@[k],
            decreases n@.len() - j,
        {
            j += 1;
        }
        if j == n.len() {
            assert(hay@.subrange(i as int, i + needle@.len()) =~= needle@);
            return true;
        }
        proof {
            let piece = hay@.subrange(i as int, i + needle@.len());
            assert(piece[j as int] != needle@[j as int]);
        }
        if i == h.len() - n.len() {
            return false;
        }
        i += 1;
    }
    false
}

/// Whether a character stands in a text.
pub fn has_char(s: &str, c: char) -> (r: bool)
    ensures
        r == s@.contains(c),
{
    let cs = chars_of(s);
    let mut i: usize = 0;
    while i < cs.len()
        invariant
            cs@ == s@,
            i <= cs@.len(),
            forall|k: int| 0 <= k < i ==> s@[k] != c,
        decreases cs@.len() - i,
    {
        if cs[i] == c {
            return true;
        }
        i += 1;
    }
    false
}

/// The items one after the other, with `sep` between two of them.
pub fn join_texts(items: &Vec<String>, sep: &str) -> (r: String)
    ensures
        r@ == join(texts(items@), sep@),
{
    if items.len() == 0 {
        return String::new();
    }
    let mut r = items[0].clone();
    let mut i: usize = 1;
    proof {
        assert(texts(items@).subrange(0, 1) =~= seq![items@[0]@]);
    }
    while i < items.len()
        invariant
            1 <= i <= items@.len(),
            r@ == join(texts(items@).subrange(0, i as int), sep@),
        decreases items@.len() - i,
    {
        r.append(sep);
        r.append(items[i].as_str());
        i += 1;
        proof {
            let now = texts(items@).subrange(0, i as int);
            assert(now.drop_last() =~= texts(items@).subrange(0, i - 1));
            assert(now.last() == items@[i - 1]@);
        }
    }
    assert(texts(items@).subrange(0, i as int) =~= texts(items@));
    r
}

/// Dictionary order by code point.
pub fn text_at_most(a: &str, b: &str) -> (r: bool)
    ensures
        r == text_le(a@, b@),
{
    let x = chars_of(a);
    let y = chars_of(b);
    let mut i: usize = 0;
    assert(a@.subrange(0, a@.len() as int) =~= a@);
    assert(b@.subrange(0, b@.len() as int) =~= b@);
    while i < x.len() && i < y.len()
        invariant
            x@ == a@,
            y@ == b@,
            i <= x@.len(),
            i <= y@.len(),
            text_le(a@, b@) == text_le(
                a@.subrange(i as int, a@.len() as int),
                b@.subrange(i as int, b@.len() as int),
            ),
        decreases x@.len() - i,
    {
        proof {
            let p = a@.subrange(i as int, a@.len() as int);
            let q = b@.subrange(i as int, b@.len() as int);
            assert(p.drop_first() =~= a@.subrange(i + 1, a@.len() as int));
            assert(q.drop_first() =~= b@.subrange(i + 1, b@.len() as int));
        }
        if x[i] != y[i] {
            return x[i] < y[i];
        }
        i += 1;
    }
    i == x.len()
}

/// Dictionary order is total.
pub proof fn lemma_text_le_total(a: Seq<char>, b: Seq<char>)
    ensures
        text_le(a, b) || text_le(b, a),
    decreases a.len(),
{
    if a.len() > 0 && b.len() > 0 && a[0] == b[0] {
        lemma_text_le_total(a.drop_first(), b.drop_first());
    }
}

/// Dictionary order is transitive.
pub proof fn lemma_text_le_transitive(a: Seq<char>, b: Seq<char>, c: Seq<char>)
    requires
        text_le(a, b),
        text_le(b, c),
    ensures
        text_le(a, c),
    decreases a.len(),
{
    if a.len() > 0 && b.len() > 0 && c.len() > 0 && a[0] == b[0] && b[0] == c[0] {
        lemma_text_le_transitive(a.drop_first(), b.drop_first(), c.drop_first());
    }
}

/// Two texts that come before each other are the same text.
proof fn lemma_text_le_antisymmetric(a: Seq<char>, b: Seq<char>)
    requires
        text_le(a, b),
        text_le(b, a),
    ensures
        a == b,
    decreases a.len(),
{
    if a.len() > 0 && b.len() > 0 {
        lemma_text_le_antisymmetric(a.drop_first(), b.drop_first());
        assert(a =~= seq![a[0]] + a.drop_first());
        assert(b =~= seq![b[0]] + b.drop_first());
    } else {
        assert(a =~= b);
    }
}

/// Texts can be sorted in one way only.
pub proof fn a_sorting_is_unique(items: Seq<Seq<char>>, a: Seq<Seq<char>>, b: Seq<Seq<char>>)
    requires
        is_sorting_of(a, items),
        is_sorting_of(b, items),
    ensures
        a == b,
    decreases a.len(),
{
    a.to_multiset_ensures();
    b.to_multiset_ensures();
    if a.len() > 0 {
        let (x, y) = (a[0], b[0]);
        assert(b.to_multiset().count(x) > 0) by {
            assert(a.contains(x));
        }
        assert(a.to_multiset().count(y) > 0) by {
            assert(b.contains(y));
        }
        let i = choose|i: int| 0 <= i < b.len() && b[i] == x;
        let j = choose|j: int| 0 <= j < a.len() && a[j] == y;
        lemma_text_le_total(x, x);
        assert(text_le(y, x));
        assert(text_le(x, y));
        lemma_text_le_antisymmetric(x, y);
        let (p, q) = (a.remove(0), b.remove(0));
        assert(p.to_multiset() =~= a.to_multiset().remove(x));
        assert(q.to_multiset() =~= b.to_multiset().remove(x));
        a_sorting_is_unique(p, p, q);
        assert(a =~= seq![x] + p);
        assert(b =~= seq![y] + q);
    } else {
        assert(a =~= b);
    }
}

/// The same texts in dictionary order.
pub fn sorted_texts(items: &Vec<String>) -> (r: Vec<String>)
    ensures
        is_sorting_of(texts(r@), texts(items@)),
{
    let mut r: Vec<String> = Vec::new();
    let mut i: usize = 0;
    assert(texts(r@) =~= texts(items@).subrange(0, 0));
    while i < items.len()
        invariant
            i <= items@.len(),
            is_sorting_of(texts(r@), texts(items@).subrange(0, i as int)),
        decreases items@.len() - i,
    {
        let mut p: usize = 0;
        while p < r.len() && text_at_most(r[p].as_str(), items[i].as_str())
            invariant
                i < items@.len(),
                p <= r@.len(),
                is_sorted(texts(r@)),
                forall|k: int| 0 <= k < p ==> text_le(#[trigger] r@[k]@, items@[i as int]@),
            decreases r@.len() - p,
        {
            p += 1;
        }
        let ghost before = r@;
        let ghost new = items@[i as int]@;
        r.insert(p, items[i].clone());
        i += 1;
        proof {
            assert(texts(r@) =~= texts(before).insert(p as int, new));
            vstd::seq_lib::to_multiset_insert(texts(before), p as int, new);
            let upto = texts(items@).subrange(0, i as int);
            assert(upto =~= texts(items@).subrange(0, i - 1).push(new));
            vstd::seq_lib::to_multiset_build(texts(items@).subrange(0, i - 1), new);
            assert forall|a: int, b: int| 0 <= a < b < r@.len() implies text_le(
                texts(r@)[a],
                texts(r@)[b],
            ) by {
                let old_items = texts(before);
                if b < p {
                    assert(text_le(old_items[a], old_items[b]));
                } else if b == p {
                    assert(text_le(before[a]@, new));
                } else if a > p {
                    assert(text_le(old_items[a - 1], old_items[b - 1]));
                } else {
                    assert(!text_le(before[p as int]@, new));
                    lemma_text_le_total(before[p as int]@, new);
                    if a == p {
                        if b - 1 > p {
                            assert(text_le(old_items[p as int], old_items[b - 1]));
                            lemma_text_le_transitive(new, old_items[p as int], old_items[b - 1]);
                        }
                    } else {
                        assert(text_le(old_items[a], old_items[b - 1]));
                    }
                }
            }
        }
    }
    assert(texts(items@).subrange(0, i as int) =~= texts(items@));
    r
}

/// A text without a carriage return at its end.
pub open spec fn without_return(s: Seq<char>) -> Seq<char> {
    if s.len() > 0 && s.last() == '\r' {
        s.drop_last()
    } else {
        s
    }
}

/// The lines of a text. A line ends at a line feed, which a carriage return may
/// precede; the last line needs no ending.
pub open spec fn lines(s: Seq<char>) -> Seq<Seq<char>>
    decreases s.len(),
{
    let k = first_where(s, is_char('\n'));
    if s.len() == 0 {
        Seq::empty()
    } else if k < 0 || k >= s.len() {
        seq![s]
    } else {
        seq![without_return(s.subrange(0, k))] + lines(s.subrange(k + 1, s.len() as int))
    }
}

/// The lines of a text.
pub fn lines_of(s: &str) -> (r: Vec<String>)
    ensures
        texts(r@) == lines(s@),
{
    let cs = chars_of(s);
    let mut r: Vec<String> = Vec::new();
    let mut start: usize = 0;
    assert(s@.subrange(0, s@.len() as int) =~= s@);
    assert(texts(r@) + lines(s@) =~= lines(s@));
    while start < cs.len()
        invariant
            cs@ == s@,
            start <= cs@.len(),
            texts(r@) + lines(s@.subrange(start as int, s@.len() as int)) == lines(s@),
        decreases cs@.len() - start,
    {
        let ghost rest = s@.subrange(start as int, s@.len() as int);
        let mut end: usize = start;
        while end < cs.len() && cs[end] != '\n'
            invariant
                cs@ == s@,
                start <= end <= cs@.len(),
                forall|j: int| start <= j < end ==> cs@[j] != '\n',
            decreases cs@.len() - end,
        {
            end += 1;
        }
        proof {
            lemma_first_where(rest, is_char('\n'), end - start);
        }
        let ghost before = texts(r@);
        if end == cs.len() {
            r.push(s.substring_char(start, end).to_owned());
            proof {
                assert(texts(r@) =~= before.push(rest));
                let none = s@.subrange(s@.len() as int, s@.len() as int);
                assert(none.len() == 0);
                assert(texts(r@) + lines(none) =~= before + lines(rest));
            }
            start = end;
        } else {
            let stop: usize = if end > start && cs[end - 1] == '\r' {
                end - 1
            } else {
                end
            };
            r.push(s.substring_char(start, stop).to_owned());
            proof {
                let line = without_return(rest.subrange(0, end - start));
                assert(s@.subrange(start as int, stop as int) =~= line);
                assert(texts(r@) =~= before.push(line));
                assert(rest.subrange(end - start + 1, rest.len() as int) =~= s@.subrange(
                    end + 1,
                    s@.len() as int,
                ));
                assert(texts(r@) + lines(s@.subrange(end + 1, s@.len() as int)) =~= before
                    + lines(rest));
            }
            start = end + 1;
        }
    }
    assert(texts(r@) + lines(s@.subrange(start as int, s@.len() as int)) =~= texts(r@));
    r
}

/// A text with every occurrence of `from` replaced, from left to right.
pub open spec fn replace_all(s: Seq<char>, from: Seq<char>, to: Seq<char>) -> Seq<char>
    decreases s.len(),
{
    if from.len() == 0 || s.len() < from.len() {
        s
    } else if s.subrange(0, from.len() as int) == from {
        to + replace_all(s.subrange(from.len() as int, s.len() as int), from, to)
    } else {
        seq![s[0]] + replace_all(s.drop_first(), from, to)
    }
}

/// The text with every occurrence of `from` replaced by `to`, from left to right.
pub fn replaced(s: &str, from: &str, to: &str) -> (r: String)
    requires
        from@.len() > 0,
    ensures
        r@ == replace_all(s@, from@, to@),
{
    let cs = chars_of(s);
    let f = chars_of(from);
    let n: usize = cs.len();
    let mut r = String::new();
    let mut i: usize = 0;
    assert(s@.subrange(0, s@.len() as int) =~= s@);
    assert(r@ + replace_all(s@, from@, to@) =~= replace_all(s@, from@, to@));
    while i < n && f.len() <= n - i
        invariant
            cs@ == s@,
            f@ == from@,
            f@.len() > 0,
            n == cs@.len(),
            i <= n,
            r@ + replace_all(s@.subrange(i as int, s@.len() as int), from@, to@) == replace_all(
                s@,
                from@,
                to@,
            ),
        decreases cs@.len() - i,
    {
        let ghost rest = s@.subrange(i as int, s@.len() as int);
        let ghost before = r@;
        let mut j: usize = 0;
        while j < f.len() && cs[i + j] == f[j]
            invariant
                cs@ == s@,
                f@ == from@,
                i + f@.len() <= cs@.len(),
                n == cs@.len(),
                j <= f@.len(),
                forall|k: int| 0 <= k < j ==> cs@[i + k] == f@[k],
            decreases f@.len() - j,
        {
            j += 1;
        }
        if j == f.len() {
            r.append(to);
            i = i + f.len();
            proof {
                assert(rest.subrange(0, from@.len() as int) =~= from@);
                let tail = s@.subrange(i as int, s@.len() as int);
                assert(rest.subrange(from@.len() as int, rest.len() as int) =~= tail);
                assert(r@ + replace_all(tail, from@, to@) =~= before + replace_all(
                    rest,
                    from@,
                    to@,
                ));
            }
        } else {
            r.append(s.substring_char(i, i + 1));
            i = i + 1;
            proof {
                assert(rest.subrange(0, from@.len() as int)[j as int] != from@[j as int]);
                let tail = s@.subrange(i as int, s@.len() as int);
                assert(rest.drop_first() =~= tail);
                assert(s@.subrange(i - 1, i as int) =~= seq![rest[0]]);
                assert(r@ + replace_all(tail, from@, to@) =~= before + replace_all(
                    rest,
                    from@,
                    to@,
                ));
            }
        }
    }
    r.append(s.substring_char(i, n));
    r
}

/// Whether a text begins with another one.
pub open spec fn begins_with(s: Seq<char>, prefix: Seq<char>) -> bool {
    prefix.len() <= s.len() && s.subrange(0, prefix.len() as int) == prefix
}

/// Whether a text begins with another one.
pub fn starts_with(s: &str, prefix: &str) -> (r: bool)
    ensures
        r == begins_with(s@, prefix@),
{
    let cs = chars_of(s);
    let ps = chars_of(prefix);
    if ps.len() > cs.len() {
        return false;
    }
    let mut i: usize = 0;
    while i < ps.len()
        invariant
            cs@ == s@,
            ps@ == prefix@,
            i <= ps@.len() <= cs@.len(),
            forall|j: int| 0 <= j < i ==> s@[j] == prefix@[j],
        decreases ps@.len() - i,
    {
        if cs[i] != ps[i] {
            assert(s@.subrange(0, prefix@.len() as int)[i as int] != prefix@[i as int]);
            return false;
        }
        i += 1;
    }
    assert(s@.subrange(0, prefix@.len() as int) =~= prefix@);
    true
}

/// Being this character.
pub open spec fn is_char(sep: char) -> spec_fn(char) -> bool {
    |c: char| c == sep
}

/// The pieces of a text between the occurrences of a character.
pub open spec fn split(s: Seq<char>, sep: char) -> Seq<Seq<char>>
    decreases s.len(),
{
    let k = first_where(s, is_char(sep));
    if k < 0 || k >= s.len() {
        seq![s]
    } else {
        seq![s.subrange(0, k)] + split(s.subrange(k + 1, s.len() as int), sep)
    }
}

/// The pieces of a text between the occurrences of a character.
pub fn split_at_char(s: &str, sep: char) -> (r: Vec<String>)
    ensures
        texts(r@) == split(s@, sep),
{
    let cs = chars_of(s);
    let mut r: Vec<String> = Vec::new();
    let mut start: usize = 0;
    assert(s@.subrange(0, s@.len() as int) =~= s@);
    assert(texts(r@) + split(s@, sep) =~= split(s@, sep));
    loop
        invariant
            cs@ == s@,
            start <= cs@.len(),
            texts(r@) + split(s@.subrange(start as int, s@.len() as int), sep) == split(s@, sep),
        decreases cs@.len() - start,
    {
        let ghost rest = s@.subrange(start as int, s@.len() as int);
        let mut end: usize = start;
        while end < cs.len() && cs[end] != sep
            invariant
                cs@ == s@,
                start <= end <= cs@.len(),
                forall|j: int| start <= j < end ==> cs@[j] != sep,
            decreases cs@.len() - end,
        {
            end += 1;
        }
        proof {
            lemma_first_where(rest, is_char(sep), end - start);
        }
        let ghost before = texts(r@);
        r.push(s.substring_char(start, end).to_owned());
        assert(texts(r@) =~= before.push(s@.subrange(start as int, end as int)));
        if end == cs.len() {
            assert(texts(r@) =~= before + split(rest, sep));
            return r;
        }
        proof {
            assert(rest.subrange(0, end - start) =~= s@.subrange(start as int, end as int));
            assert(rest.subrange(end - start + 1, rest.len() as int) =~= s@.subrange(
                end + 1,
                s@.len() as int,
            ));
            assert(texts(r@) + split(s@.subrange(end + 1, s@.len() as int), sep) =~= before
                + split(rest, sep));
        }
        start = end + 1;
    }
}

/// The place `a` comes before the place `b` in dictionary order; equal texts keep their
/// order.
pub open spec fn place_before(items: Seq<Seq<char>>, a: usize, b: usize) -> bool {
    text_le(items[a as int], items[b as int]) && (text_le(items[b as int], items[a as int]) ==> a
        < b)
}

/// The places of the texts, in dictionary order.
pub open spec fn is_text_order(items: Seq<Seq<char>>, order: Seq<usize>) -> bool {
    &&& order.len() == items.len()
    &&& order.no_duplicates()
    &&& forall|i: int| 0 <= i < order.len() ==> #[trigger] order[i] < items.len()
    &&& forall|i: int, j: int|
        0 <= i < j < order.len() ==> place_before(items, #[trigger] order[i], #[trigger] order[j])
}

/// The places of the texts, in dictionary order; equal texts keep their order.
pub fn text_order(items: &Vec<String>) -> (r: Vec<usize>)
    ensures
        is_text_order(texts(items@), r@),
{
    let mut r: Vec<usize> = Vec::new();
    let ghost all = texts(items@);
    let mut i: usize = 0;
    while i < items.len()
        invariant
            all == texts(items@),
            i <= items@.len(),
            r@.len() == i,
            r@.no_duplicates(),
            forall|k: int| 0 <= k < r@.len() ==> #[trigger] r@[k] < i,
            forall|j: int, k: int|
                0 <= j < k < r@.len() ==> place_before(all, #[trigger] r@[j], #[trigger] r@[k]),
        decreases items@.len() - i,
    {
        let mut p: usize = 0;
        while p < r.len() && text_at_most(items[r[p]].as_str(), items[i].as_str())
            invariant
                all == texts(items@),
                i < items@.len(),
                p <= r@.len(),
                r@.len() == i,
                forall|k: int| 0 <= k < r@.len() ==> #[trigger] r@[k] < i,
                forall|k: int|
                    0 <= k < p ==> text_le(all[#[trigger] r@[k] as int], all[i as int]),
            decreases r@.len() - p,
        {
            p += 1;
        }
        let ghost before = r@;
        r.insert(p, i);
        proof {
            let new = all[i as int];
            if p < before.len() {
                assert(!text_le(all[before[p as int] as int], new));
                lemma_text_le_total(all[before[p as int] as int], new);
            }
            assert forall|j: int, k: int| 0 <= j < k < r@.len() implies place_before(
                all,
                #[trigger] r@[j],
                #[trigger] r@[k],
            ) by {
                if k < p {
                    assert(place_before(all, before[j], before[k]));
                } else if j > p {
                    assert(place_before(all, before[j - 1], before[k - 1]));
                } else if k == p {
                    assert(before[j] < i);
                } else if j == p {
                    let at = all[before[p as int] as int];
                    let later = all[before[k - 1] as int];
                    if k - 1 > p {
                        assert(place_before(all, before[p as int], before[k - 1]));
                        lemma_text_le_transitive(new, at, later);
                        if text_le(later, new) {
                            lemma_text_le_transitive(at, later, new);
                        }
                    }
                } else {
                    assert(place_before(all, before[j], before[k - 1]));
                }
            }
            assert forall|j: int, k: int| 0 <= j < r@.len() && 0 <= k < r@.len() && j != k implies
                r@[j] != r@[k] by {
                if r@[j] == r@[k] {
                    if j != p && k != p {
                        let a = if j < p { j } else { j - 1 };
                        let b = if k < p { k } else { k - 1 };
                        assert(before[a] != before[b]);
                    } else if j == p {
                        let b = if k < p { k } else { k - 1 };
                        assert(before[b] < i);
                    } else {
                        let a = if j < p { j } else { j - 1 };
                        assert(before[a] < i);
                    }
                }
            }
        }
        i += 1;
    }
    r
}

} // verus!
