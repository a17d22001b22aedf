//! What holds of the operations on characters, for all texts.

use vstd::prelude::*;

use crate::text;

verus! {

/// Splitting takes a text apart at its separators and nowhere else: no piece
/// holds one, and the pieces with separators between them are the text.
pub proof fn law_split(s: Seq<char>, sep: char)
    ensures
        text::split(s, sep).len() >= 1,
        forall|i: int|
            0 <= i < text::split(s, sep).len() ==> !(#[trigger] text::split(s, sep)[i]).contains(
                sep,
            ),
        text::join(text::split(s, sep), sep) == s,
{
    text::lemma_split_len(s, sep);
    text::lemma_split_pieces(s, sep);
    text::lemma_join_split(s, sep);
}

/// Pieces that hold no separator come out of the text that they make up.
pub proof fn law_split_gives_pieces(pieces: Seq<Seq<char>>, sep: char)
    requires
        pieces.len() >= 1,
        forall|i: int| 0 <= i < pieces.len() ==> !(#[trigger] pieces[i]).contains(sep),
    ensures
        text::split(text::join(pieces, sep), sep) == pieces,
    decreases pieces.len(),
{
    if pieces.len() == 1 {
        assert(!pieces[0].contains(sep));
        text::lemma_split_single(pieces[0], sep);
        assert(pieces == seq![pieces[0]]);
    } else {
        let init = pieces.drop_last();
        assert forall|i: int| 0 <= i < init.len() implies !(#[trigger] init[i]).contains(sep) by {
            assert(init[i] == pieces[i]);
        }
        law_split_gives_pieces(init, sep);
        assert(!pieces[pieces.len() - 1].contains(sep));
        text::lemma_split_concat(text::join(init, sep), sep, pieces.last());
        text::lemma_split_single(pieces.last(), sep);
        assert(init + seq![pieces.last()] == pieces);
    }
}

/// What pieces joined by a separator are: one piece is itself, and one more
/// piece comes after one more separator.
pub proof fn law_join(pieces: Seq<Seq<char>>, piece: Seq<char>, sep: char)
    ensures
        text::join(seq![piece], sep) == piece,
        pieces.len() >= 1 ==> text::join(pieces.push(piece), sep) == text::join(pieces, sep)
            + seq![sep] + piece,
{
    if pieces.len() >= 1 {
        assert(pieces.push(piece).drop_last() == pieces);
        assert(text::join(pieces, sep).push(sep) == text::join(pieces, sep) + seq![sep]);
    }
}

/// A text is parted at its first separator: what stands before it holds none,
/// and a text without one is not parted.
pub proof fn law_split_once(s: Seq<char>, sep: char, before: Seq<char>, after: Seq<char>)
    ensures
        text::split_once(s, sep) == Some((before, after)) <==> s == before + seq![sep] + after
            && !before.contains(sep),
        text::split_once(s, sep) is None <==> !s.contains(sep),
{
    s.index_of_first_ensures(sep);
    if text::split_once(s, sep) == Some((before, after)) {
        let i = s.index_of_first(sep).unwrap();
        assert(s == s.take(i) + seq![sep] + s.skip(i + 1));
        assert(!before.contains(sep)) by {
            if before.contains(sep) {
                let j = choose|j: int| 0 <= j < before.len() && before[j] == sep;
                assert(s[j] == sep);
            }
        }
    }
    if s == before + seq![sep] + after && !before.contains(sep) {
        let n = before.len() as int;
        assert(s[n] == sep);
        assert forall|j: int| 0 <= j < n implies s[j] != sep by {
            assert(s[j] == before[j]);
            assert(before.contains(before[j]));
        }
        text::lemma_index_of_first(s, sep, n);
        assert(s.take(n) == before);
        assert(s.skip(n + 1) == after);
    }
}

/// The text between `i` and `j` is what is left of `s` without the white space
/// around it.
pub open spec fn trims_to(s: Seq<char>, i: int, j: int) -> bool {
    &&& 0 <= i <= j <= s.len()
    &&& forall|t: int| 0 <= t < i ==> text::is_white_space(#[trigger] s[t])
    &&& forall|t: int| j <= t < s.len() ==> text::is_white_space(#[trigger] s[t])
    &&& i < j ==> !text::is_white_space(s[i]) && !text::is_white_space(s[j - 1])
}

/// Trimming takes away the white space at both ends and nothing else.
pub proof fn law_trim(s: Seq<char>)
    ensures
        exists|i: int, j: int|
            #[trigger] trims_to(s, i, j) && text::trim(s) == s.subrange(i, j),
        forall|i: int, j: int| #[trigger]
            trims_to(s, i, j) && i < j ==> text::trim(s) == s.subrange(i, j),
{
    let i = lemma_trim_start(s);
    let (_, j) = lemma_trim_end(s, i, s.len() as int);
    assert(s.skip(i) == s.subrange(i, s.len() as int));
    assert(trims_to(s, i, j));
    assert forall|a: int, b: int| #[trigger] trims_to(s, a, b) && a < b implies text::trim(s)
        == s.subrange(a, b) by {
        if a < i {
            assert(text::is_white_space(s[a]));
        } else if i < a {
            if i < j {
                assert(text::is_white_space(s[i]));
            } else {
                assert(text::is_white_space(s[a]));
            }
        }
        if j < b {
            assert(text::is_white_space(s[b - 1]));
        } else if b < j {
            assert(text::is_white_space(s[j - 1]));
        }
    }
}

proof fn lemma_trim_start(s: Seq<char>) -> (i: int)
    ensures
        0 <= i <= s.len(),
        text::trim_start(s) == s.skip(i),
        forall|t: int| 0 <= t < i ==> text::is_white_space(#[trigger] s[t]),
        i < s.len() ==> !text::is_white_space(s[i]),
    decreases s.len(),
{
    if s.len() > 0 && text::is_white_space(s[0]) {
        let rest = s.drop_first();
        let k = lemma_trim_start(rest);
        assert(rest.skip(k) == s.skip(k + 1));
        assert forall|t: int| 0 <= t < k + 1 implies text::is_white_space(#[trigger] s[t]) by {
            if t > 0 {
                assert(rest[t - 1] == s[t]);
            }
        }
        k + 1
    } else {
        assert(s.skip(0) == s);
        0
    }
}

proof fn lemma_trim_end(s: Seq<char>, i: int, to: int) -> (r: (int, int))
    requires
        0 <= i <= to <= s.len(),
        i < s.len() ==> i == to || !text::is_white_space(s[i]),
    ensures
        r.0 == i,
        i <= r.1 <= to,
        text::trim_end(s.subrange(i, to)) == s.subrange(i, r.1),
        forall|t: int| r.1 <= t < to ==> text::is_white_space(#[trigger] s[t]),
        i < r.1 ==> !text::is_white_space(s[r.1 - 1]),
    decreases to - i,
{
    let part = s.subrange(i, to);
    if i < to && text::is_white_space(s[to - 1]) {
        assert(part.last() == s[to - 1]);
        assert(part.drop_last() == s.subrange(i, to - 1));
        lemma_trim_end(s, i, to - 1)
    } else {
        if i < to {
            assert(part.last() == s[to - 1]);
        }
        (i, to)
    }
}

/// Two texts are the same up to ASCII case exactly when they have the same
/// length and each pair of characters is the same, or is a capital letter and
/// its small one.
pub proof fn law_ascii_case(a: Seq<char>, b: Seq<char>)
    ensures
        text::same_ignoring_ascii_case(a, b) <==> a.len() == b.len() && forall|i: int|
            0 <= i < a.len() ==> same_letter(#[trigger] a[i], b[i]),
{
    assert forall|c: char, d: char|
        (text::ascii_lower(c) == text::ascii_lower(d)) == #[trigger] same_letter(c, d) by {
        lemma_same_letter(c, d);
    }
    if text::same_ignoring_ascii_case(a, b) {
        assert forall|i: int| 0 <= i < a.len() implies same_letter(#[trigger] a[i], b[i]) by {
            assert(text::ascii_lower(a[i]) == text::ascii_lower(b[i]));
        }
    }
}

proof fn lemma_same_letter(c: char, d: char)
    ensures
        (text::ascii_lower(c) == text::ascii_lower(d)) == same_letter(c, d),
{
}

/// The same character, or an ASCII letter in its two cases.
pub open spec fn same_letter(c: char, d: char) -> bool {
    ||| c == d
    ||| 'A' <= c <= 'Z' && d as int == c as int + 32
    ||| 'A' <= d <= 'Z' && c as int == d as int + 32
}

/// Digits are read from the left: each one more is worth its own value and
/// makes what stands before it worth ten times as much.
pub proof fn law_digits_value(s: Seq<char>, c: char)
    requires
        '0' <= c <= '9',
    ensures
        text::digits_value(Seq::<char>::empty()) == 0,
        text::digits_value(s.push(c)) == 10 * text::digits_value(s) + (c as int - 48),
{
    assert(s.push(c).drop_last() == s);
}

/// A text is a number exactly when it is made of digits, at least one, behind at
/// most one plus sign; it is taken where it is at most `max`.
pub proof fn law_parse(s: Seq<char>, max: nat, n: nat)
    ensures
        text::parse_at_most(s, max) == Some(n) <==> n <= max && exists|from: int| #[trigger]
            number_from(s, from, n),
{
    if text::parse_at_most(s, max) == Some(n) {
        if s[0] == '+' {
            assert(s.skip(1).len() == s.len() - 1);
            assert forall|i: int| 1 <= i < s.len() implies '0' <= #[trigger] s[i] <= '9' by {
                assert(s.skip(1)[i - 1] == s[i]);
                assert(text::is_digit(s.skip(1)[i - 1]));
            }
            assert(number_from(s, 1, n));
        } else {
            assert(s.skip(0) == s);
            assert forall|i: int| 0 <= i < s.len() implies '0' <= #[trigger] s[i] <= '9' by {
                assert(text::is_digit(s[i]));
            }
            assert(number_from(s, 0, n));
        }
    }
    assert forall|from: int| #[trigger] number_from(s, from, n) && n <= max implies
        text::parse_at_most(s, max) == Some(n) by {
        assert('0' <= s[from] <= '9');
        assert(s.skip(0) == s);
        assert forall|i: int| 0 <= i < s.skip(from).len() implies text::is_digit(
            #[trigger] s.skip(from)[i],
        ) by {
            assert(s[from + i] == s.skip(from)[i]);
        }
        assert(text::unsigned_part(s) == s.skip(from));
    }
}

/// `s` is a number: digits from `from` on, with nothing or a plus sign before
/// them.
pub open spec fn number_from(s: Seq<char>, from: int, n: nat) -> bool {
    &&& 0 <= from < s.len()
    &&& from == 0 || (from == 1 && s[0] == '+')
    &&& forall|i: int| from <= i < s.len() ==> '0' <= #[trigger] s[i] <= '9'
    &&& text::digits_value(s.skip(from)) == n
}

/// A number is written in digits, with no zero in front unless it is zero.
pub proof fn law_decimal(n: nat)
    ensures
        text::decimal(n).len() >= 1,
        forall|i: int| 0 <= i < text::decimal(n).len() ==> '0' <= #[trigger] text::decimal(n)[i] <= '9',
        text::digits_value(text::decimal(n)) == n,
        text::decimal(n).len() > 1 ==> text::decimal(n)[0] != '0',
    decreases n,
{
    text::lemma_decimal(n);
    assert forall|i: int| 0 <= i < text::decimal(n).len() implies '0' <= #[trigger] text::decimal(n)[i]
        <= '9' by {
        assert(text::is_digit(text::decimal(n)[i]));
    }
    if n >= 10 {
        law_decimal(n / 10);
        let shorter = text::decimal(n / 10);
        assert(text::decimal(n)[0] == shorter[0]);
        if shorter.len() == 1 && shorter[0] == '0' {
            reveal_with_fuel(text::digits_value, 2);
            assert(shorter.drop_last().len() == 0);
            assert(text::digits_value(shorter) == 0);
        }
    }
}

} // verus!
