//! What holds of the operations on text: numerals denote their numbers, names
//! match whatever the case of their letters, and what is taken apart can be put
//! together again.
use vstd::arithmetic::power::{lemma_pow0, lemma_pow_positive, pow};
use vstd::prelude::*;

use crate::text::{decimal, denoted, digit, folded, is_digit, is_port, is_white_space};
use crate::text::{occurs, occurs_at, pieces, precedes, replaced, replaced_absent, same_name};
use crate::text::{signed_decimal, trimmed, trimmed_end, trimmed_start, without_plus};
use crate::text::without_trailing;

verus! {

/// A decimal digit.
pub open spec fn decimal_digit(c: char) -> bool {
    48 <= c as int <= 57
}

/// Decimal digits, and nothing else.
pub open spec fn all_digits(s: Seq<char>) -> bool {
    forall|i: int| 0 <= i < s.len() ==> decimal_digit(#[trigger] s[i])
}

/// The number that decimal digits stand for, each by its place.
pub open spec fn by_places(s: Seq<char>) -> int
    decreases s.len(),
{
    if s.len() == 0 {
        0
    } else {
        (s[0] as int - 48) * pow(10, (s.len() - 1) as nat) + by_places(s.skip(1))
    }
}

proof fn one_more_place(k: nat)
    ensures
        pow(10, k + 1) == 10 * pow(10, k),
        pow(10, k) > 0,
{
    reveal(pow);
    lemma_pow_positive(10, k);
}

proof fn last_place(s: Seq<char>)
    requires
        s.len() > 0,
    ensures
        by_places(s) == 10 * by_places(s.drop_last()) + (s.last() as int - 48),
    decreases s.len(),
{
    let front = s.drop_last();
    if s.len() == 1 {
        lemma_pow0(10);
        assert(s.skip(1).len() == 0);
        assert(by_places(s.skip(1)) == 0);
        assert(by_places(front) == 0);
        let d = s[0] as int - 48;
        assert(by_places(s) == d * 1 + 0);
    } else {
        let rest = s.skip(1);
        last_place(rest);
        assert(rest.drop_last() == front.skip(1));
        assert(rest.last() == s.last());
        let k = (s.len() - 2) as nat;
        one_more_place(k);
        let d = s[0] as int - 48;
        let p = pow(10, k);
        assert(by_places(front) == d * p + by_places(front.skip(1)));
        assert(by_places(s) == d * (10 * p) + by_places(rest));
        assert(d * (10 * p) == 10 * (d * p)) by (nonlinear_arith);
    }
}

proof fn denoted_by_places(s: Seq<char>)
    requires
        all_digits(s),
    ensures
        denoted(s) == by_places(s),
        by_places(s) >= 0,
    decreases s.len(),
{
    if s.len() > 0 {
        last_place(s);
        let front = s.drop_last();
        assert forall|i: int| 0 <= i < front.len() implies decimal_digit(#[trigger] front[i]) by {
            assert(front[i] == s[i]);
        }
        denoted_by_places(front);
        assert(decimal_digit(s[s.len() - 1]));
    }
}

/// A numeral is decimal digits that stand for the number, without a zero in
/// front that could be left out.
pub proof fn numeral_stands_for_its_number(n: nat)
    ensures
        decimal(n).len() > 0,
        all_digits(decimal(n)),
        by_places(decimal(n)) == n,
        decimal(n).len() > 1 ==> decimal(n)[0] != '0',
        n < 10 ==> decimal(n).len() == 1,
        n > 0 ==> decimal(n)[0] != '0',
    decreases n,
{
    let s = decimal(n);
    last_place(s);
    if n < 10 {
        assert(s.drop_last().len() == 0);
        assert(by_places(s.drop_last()) == 0);
    } else {
        let front = decimal(n / 10);
        numeral_stands_for_its_number(n / 10);
        assert(s.drop_last() == front);
        assert forall|i: int| 0 <= i < s.len() implies decimal_digit(#[trigger] s[i]) by {
            if i < front.len() {
                assert(s[i] == front[i]);
            }
        }
        assert(s[0] == front[0]);
    }
}

/// Different numbers have different numerals.
pub proof fn numerals_tell_numbers_apart(a: nat, b: nat)
    requires
        decimal(a) == decimal(b),
    ensures
        a == b,
{
    numeral_stands_for_its_number(a);
    numeral_stands_for_its_number(b);
}

/// The numeral of a negative number is a minus sign and the numeral of its
/// opposite; of another it is the numeral.
pub proof fn signed_numeral_has_its_sign(n: nat)
    ensures
        signed_decimal(n as int) == decimal(n),
        n > 0 ==> signed_decimal(-(n as int)) == seq!['-'] + decimal(n),
{
}

/// A port number is decimal digits, after a plus sign or not, that stand for at
/// most 65535.
pub proof fn ports_are_numbers_of_sixteen_bits(digits: Seq<char>)
    requires
        all_digits(digits),
        digits.len() > 0,
    ensures
        is_port(digits) <==> by_places(digits) <= 65535,
        is_port(seq!['+'] + digits) <==> by_places(digits) <= 65535,
{
    let signed = seq!['+'] + digits;
    denoted_by_places(digits);
    assert(decimal_digit(digits[0]));
    assert(signed.skip(1) == digits);
    assert(without_plus(signed) == digits);
    assert(without_plus(digits) == digits);
    assert forall|i: int| 0 <= i < digits.len() implies is_digit(#[trigger] digits[i]) by {
        assert(decimal_digit(digits[i]));
    }
}

/// Nothing else is a port number.
pub proof fn only_digits_are_ports(s: Seq<char>)
    requires
        is_port(s),
    ensures
        s.len() > 0,
        ({
            let digits = if s[0] == '+' {
                s.skip(1)
            } else {
                s
            };
            digits.len() > 0 && all_digits(digits) && by_places(digits) <= 65535
        }),
{
    let digits = without_plus(s);
    assert forall|i: int| 0 <= i < digits.len() implies decimal_digit(#[trigger] digits[i]) by {
        assert(is_digit(digits[i]));
    }
    denoted_by_places(digits);
}

/// The numeral of a number is a port exactly where the number is at most 65535.
pub proof fn numerals_up_to_sixteen_bits_are_ports(n: nat)
    ensures
        is_port(decimal(n)) <==> n <= 65535,
{
    numeral_stands_for_its_number(n);
    ports_are_numbers_of_sixteen_bits(decimal(n));
}

/// The same letter, once small and once as a capital.
pub open spec fn letter_and_capital(small: char, capital: char) -> bool {
    97 <= small as int <= 122 && small as int == capital as int + 32
}

/// Two names match where each of their characters is the same or the same ASCII
/// letter.
pub proof fn names_match_whatever_the_case(a: Seq<char>, b: Seq<char>)
    ensures
        same_name(a, b) <==> a.len() == b.len() && forall|i: int|
            #![trigger a[i]]
            0 <= i < a.len() ==> a[i] == b[i] || letter_and_capital(a[i], b[i])
                || letter_and_capital(b[i], a[i]),
{
    if same_name(a, b) {
        assert forall|i: int|
            #![trigger a[i]]
            0 <= i < a.len() implies a[i] == b[i] || letter_and_capital(a[i], b[i])
            || letter_and_capital(b[i], a[i]) by {
            assert(folded(a[i]) == folded(b[i]));
        }
    }
}

/// The first character in which two texts differ decides which comes first.
pub proof fn first_difference_decides(
    common: Seq<char>,
    x: char,
    y: char,
    a: Seq<char>,
    b: Seq<char>,
)
    requires
        x != y,
    ensures
        precedes(common + seq![x] + a, common + seq![y] + b) <==> (x as int) < (y as int),
    decreases common.len(),
{
    let left = common + seq![x] + a;
    let right = common + seq![y] + b;
    if common.len() == 0 {
        assert(left[0] == x && right[0] == y);
    } else {
        first_difference_decides(common.skip(1), x, y, a, b);
        assert(left.skip(1) == common.skip(1) + seq![x] + a);
        assert(right.skip(1) == common.skip(1) + seq![y] + b);
        assert(left[0] == right[0]);
    }
}

/// A text comes after its own beginnings, and not before them.
pub proof fn beginnings_come_first(start: Seq<char>, rest: Seq<char>)
    requires
        rest.len() > 0,
    ensures
        precedes(start, start + rest),
        !precedes(start + rest, start),
    decreases start.len(),
{
    if start.len() > 0 {
        beginnings_come_first(start.skip(1), rest);
        assert((start + rest).skip(1) == start.skip(1) + rest);
    }
}

/// What stands before the first occurrence of a part stays, the part is
/// exchanged, and so on with what follows.
pub proof fn first_occurrence_is_exchanged(
    before: Seq<char>,
    part: Seq<char>,
    after: Seq<char>,
    by: Seq<char>,
)
    requires
        part.len() > 0,
        forall|i: int|
            0 <= i < before.len() ==> !#[trigger] occurs_at(before + part + after, part, i),
    ensures
        replaced(before + part + after, part, by) == before + by + replaced(after, part, by),
    decreases before.len(),
{
    let s = before + part + after;
    if before.len() == 0 {
        assert(s.take(part.len() as int) == part);
        assert(s.skip(part.len() as int) == after);
        assert(before + by + replaced(after, part, by) == by + replaced(after, part, by));
    } else {
        let rest = before.skip(1);
        let tail = rest + part + after;
        assert(s.skip(1) == tail);
        assert(!occurs_at(s, part, 0));
        assert(s.take(part.len() as int) == s.subrange(0, part.len() as int));
        assert forall|i: int| 0 <= i < rest.len() implies !#[trigger] occurs_at(tail, part, i) by {
            assert(!occurs_at(s, part, i + 1));
            if i + part.len() <= tail.len() {
                assert(tail.subrange(i, i + part.len()) == s.subrange(
                    i + 1,
                    i + 1 + part.len(),
                ));
            }
        }
        first_occurrence_is_exchanged(rest, part, after, by);
        assert(seq![s[0]] + (rest + by + replaced(after, part, by)) == before + by + replaced(
            after,
            part,
            by,
        ));
    }
}

/// The pieces with the separator between them.
pub open spec fn joined(parts: Seq<Seq<char>>, separator: char) -> Seq<char>
    decreases parts.len(),
{
    if parts.len() == 0 {
        Seq::empty()
    } else if parts.len() == 1 {
        parts[0]
    } else {
        joined(parts.drop_last(), separator) + seq![separator] + parts.last()
    }
}

/// The pieces of a text hold no separator, and make the text again when they are
/// joined.
pub proof fn pieces_join_to_the_text(s: Seq<char>, separator: char)
    ensures
        pieces(s, separator).len() > 0,
        joined(pieces(s, separator), separator) == s,
        forall|i: int|
            0 <= i < pieces(s, separator).len() ==> !(#[trigger] pieces(s, separator)[i]).contains(
                separator,
            ),
    decreases s.len(),
{
    let parts = pieces(s, separator);
    if s.len() > 0 {
        let front = s.drop_last();
        let before = pieces(front, separator);
        pieces_join_to_the_text(front, separator);
        if s.last() == separator {
            assert(parts.drop_last() == before);
            assert(joined(parts, separator) =~= s);
        } else {
            let last = before.last().push(s.last());
            assert(parts.drop_last() == before.drop_last());
            assert(joined(parts, separator) =~= s) by {
                assert(parts.last() == last);
                assert(s == front.push(s.last()));
                if before.len() > 1 {
                    let start = joined(before.drop_last(), separator) + seq![separator];
                    assert(joined(before, separator) == start + before.last());
                    assert(joined(parts, separator) == start + last);
                    assert(start + last == (start + before.last()).push(s.last()));
                } else {
                    assert(parts.len() == 1);
                    assert(joined(before, separator) == before[0]);
                    assert(joined(parts, separator) == last);
                }
            }
            assert forall|i: int| 0 <= i < parts.len() implies !(#[trigger] parts[i]).contains(
                separator,
            ) by {
                if i < before.len() - 1 {
                    assert(parts[i] == before[i]);
                } else {
                    assert(!before[before.len() - 1].contains(separator));
                    if last.contains(separator) {
                        let k = choose|k: int| 0 <= k < last.len() && last[k] == separator;
                        assert(before.last()[k] == separator);
                    }
                }
            }
        }
    } else {
        assert(parts[0].len() == 0);
    }
}

/// What is left is the text up to where only that character follows, and does
/// not end with it.
pub proof fn only_the_end_is_cut(s: Seq<char>, c: char)
    ensures
        without_trailing(s, c).len() <= s.len(),
        without_trailing(s, c) == s.take(without_trailing(s, c).len() as int),
        forall|i: int| without_trailing(s, c).len() <= i < s.len() ==> #[trigger] s[i] == c,
        without_trailing(s, c).len() > 0 ==> without_trailing(s, c).last() != c,
    decreases s.len(),
{
    let r = without_trailing(s, c);
    if s.len() > 0 && s.last() == c {
        let front = s.drop_last();
        only_the_end_is_cut(front, c);
        assert(front.take(r.len() as int) == s.take(r.len() as int));
        assert forall|i: int| r.len() <= i < s.len() implies #[trigger] s[i] == c by {
            if i < front.len() {
                assert(front[i] == s[i]);
            }
        }
    } else {
        assert(s.take(s.len() as int) == s);
    }
}

proof fn only_the_start_is_trimmed(s: Seq<char>) -> (from: int)
    ensures
        0 <= from <= s.len(),
        trimmed_start(s) == s.skip(from),
        forall|i: int| 0 <= i < from ==> is_white_space(#[trigger] s[i]),
        from < s.len() ==> !is_white_space(s[from]),
    decreases s.len(),
{
    if s.len() > 0 && is_white_space(s[0]) {
        let rest = s.skip(1);
        let from = only_the_start_is_trimmed(rest);
        assert(rest.skip(from) == s.skip(from + 1));
        assert forall|i: int| 0 <= i < from + 1 implies is_white_space(#[trigger] s[i]) by {
            if i > 0 {
                assert(rest[i - 1] == s[i]);
            }
        }
        from + 1
    } else {
        assert(s.skip(0) == s);
        0
    }
}

proof fn only_the_end_is_trimmed(s: Seq<char>) -> (to: int)
    ensures
        0 <= to <= s.len(),
        trimmed_end(s) == s.take(to),
        forall|i: int| to <= i < s.len() ==> is_white_space(#[trigger] s[i]),
        to > 0 ==> !is_white_space(s[to - 1]),
    decreases s.len(),
{
    if s.len() > 0 && is_white_space(s.last()) {
        let front = s.drop_last();
        let to = only_the_end_is_trimmed(front);
        assert(front.take(to) == s.take(to));
        assert forall|i: int| to <= i < s.len() implies is_white_space(#[trigger] s[i]) by {
            if i < front.len() {
                assert(front[i] == s[i]);
            }
        }
        to
    } else {
        assert(s.take(s.len() as int) == s);
        s.len() as int
    }
}

/// What is left is a stretch of the text with nothing but white space around it,
/// and no white space at its ends.
pub proof fn only_white_space_is_trimmed(s: Seq<char>) -> (stretch: (int, int))
    ensures
        0 <= stretch.0 <= stretch.1 <= s.len(),
        trimmed(s) == s.subrange(stretch.0, stretch.1),
        forall|i: int|
            0 <= i < s.len() && !(stretch.0 <= i < stretch.1) ==> is_white_space(#[trigger] s[i]),
        stretch.0 < stretch.1 ==> !is_white_space(s[stretch.0]) && !is_white_space(
            s[stretch.1 - 1],
        ),
{
    let to = only_the_end_is_trimmed(s);
    let rest = s.take(to);
    let from = only_the_start_is_trimmed(rest);
    assert(rest.skip(from) == s.subrange(from, to));
    assert forall|i: int| 0 <= i < s.len() && !(from <= i < to) implies is_white_space(
        #[trigger] s[i],
    ) by {
        if i < from {
            assert(rest[i] == s[i]);
        }
    }
    if from < to {
        assert(rest[from] == s[from]);
    }
    (from, to)
}

/// A part occurs in a text exactly where the text is the part with something
/// before it and something after it.
pub proof fn parts_occur_between_others(before: Seq<char>, part: Seq<char>, after: Seq<char>)
    ensures
        occurs_at(before + part + after, part, before.len() as int),
        occurs(before + part + after, part),
{
    let s = before + part + after;
    let n = before.len() as int;
    assert(s.subrange(n, n + part.len()) =~= part);
    assert(occurs_at(s, part, n));
}

/// Where a part occurs, it stands between what comes before and what comes after.
pub proof fn occurrences_are_parts(s: Seq<char>, part: Seq<char>) -> (at: int)
    requires
        occurs(s, part),
    ensures
        0 <= at <= s.len() - part.len(),
        s == s.take(at) + part + s.skip(at + part.len()),
{
    let at = choose|at: int| occurs_at(s, part, at);
    assert(s =~= s.take(at) + s.subrange(at, at + part.len()) + s.skip(at + part.len()));
    at
}

/// Where a part does not occur, all stays.
pub proof fn nothing_is_exchanged_where_nothing_occurs(
    s: Seq<char>,
    part: Seq<char>,
    by: Seq<char>,
)
    requires
        !occurs(s, part),
    ensures
        replaced(s, part, by) == s,
{
    replaced_absent(s, part, by);
}

/// A space, a tab and the ends of lines are white space; letters, digits and
/// signs are not.
pub proof fn printed_characters_are_no_white_space(c: char)
    ensures
        is_white_space(' ') && is_white_space('\t') && is_white_space('\n') && is_white_space('\r'),
        0x21 <= c as int <= 0x7E ==> !is_white_space(c),
{
}

} // verus!
