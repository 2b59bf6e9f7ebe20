//! The few operations on text that rendering needs, each stated over the
//! text's characters.
use vstd::prelude::*;

verus! {

/// `String::push` appends the given character to the end of the text.
pub assume_specification[ String::push ](s: &mut String, c: char)
    ensures
        final(s)@ == old(s)@.push(c),
;

/// `char::is_whitespace` answers whether a character has the Unicode property
/// White_Space.
pub assume_specification[ char::is_whitespace ](c: char) -> (r: bool)
    ensures
        r == is_white_space(c),
;

/// The characters with the Unicode property White_Space.
pub open spec fn is_white_space(c: char) -> bool {
    let n = c as int;
    ||| 0x09 <= n <= 0x0D
    ||| n == 0x20
    ||| n == 0x85
    ||| n == 0xA0
    ||| n == 0x1680
    ||| 0x2000 <= n <= 0x200A
    ||| n == 0x2028
    ||| n == 0x2029
    ||| n == 0x202F
    ||| n == 0x205F
    ||| n == 0x3000
}

/// A character's code with the ASCII capitals brought to lower case.
pub open spec fn folded(c: char) -> int {
    if 'A' <= c <= 'Z' {
        c as int + 32
    } else {
        c as int
    }
}

/// Two names that differ at most in the case of their ASCII letters.
pub open spec fn same_name(a: Seq<char>, b: Seq<char>) -> bool {
    &&& a.len() == b.len()
    &&& forall|i: int| 0 <= i < a.len() ==> folded(#[trigger] a[i]) == folded(b[i])
}

/// The order of texts by the code points of their characters, a text coming
/// after each of its own beginnings.
pub open spec fn precedes(a: Seq<char>, b: Seq<char>) -> bool
    decreases a.len(),
{
    if b.len() == 0 {
        false
    } else if a.len() == 0 {
        true
    } else if a[0] != b[0] {
        a[0] < b[0]
    } else {
        precedes(a.skip(1), b.skip(1))
    }
}

/// Whether `part` stands anywhere in `s`.
pub open spec fn occurs(s: Seq<char>, part: Seq<char>) -> bool {
    exists|i: int| occurs_at(s, part, i)
}

/// Whether `part` stands in `s` from the character `i` on.
pub open spec fn occurs_at(s: Seq<char>, part: Seq<char>, i: int) -> bool {
    0 <= i && i + part.len() <= s.len() && s.subrange(i, i + part.len()) == part
}

/// `s` with every `part`, found from the left and without overlap, exchanged
/// for `by`.
pub open spec fn replaced(s: Seq<char>, part: Seq<char>, by: Seq<char>) -> Seq<char>
    decreases s.len(),
{
    if part.len() == 0 || s.len() < part.len() {
        s
    } else if s.take(part.len() as int) == part {
        by + replaced(s.skip(part.len() as int), part, by)
    } else {
        seq![s[0]] + replaced(s.skip(1), part, by)
    }
}

/// The pieces of `s` between the separators; a text without one is one piece.
pub open spec fn pieces(s: Seq<char>, separator: char) -> Seq<Seq<char>>
    decreases s.len(),
{
    if s.len() == 0 {
        seq![Seq::<char>::empty()]
    } else {
        let before = pieces(s.drop_last(), separator);
        if s.last() == separator {
            before.push(Seq::<char>::empty())
        } else {
            before.drop_last().push(before.last().push(s.last()))
        }
    }
}

/// `s` without the characters `c` at its end.
pub open spec fn without_trailing(s: Seq<char>, c: char) -> Seq<char>
    decreases s.len(),
{
    if s.len() > 0 && s.last() == c {
        without_trailing(s.drop_last(), c)
    } else {
        s
    }
}

/// `s` without the white space at its beginning.
pub open spec fn trimmed_start(s: Seq<char>) -> Seq<char>
    decreases s.len(),
{
    if s.len() > 0 && is_white_space(s[0]) {
        trimmed_start(s.skip(1))
    } else {
        s
    }
}

/// `s` without the white space at its end.
pub open spec fn trimmed_end(s: Seq<char>) -> Seq<char>
    decreases s.len(),
{
    if s.len() > 0 && is_white_space(s.last()) {
        trimmed_end(s.drop_last())
    } else {
        s
    }
}

/// `s` without the white space at either end.
pub open spec fn trimmed(s: Seq<char>) -> Seq<char> {
    trimmed_start(trimmed_end(s))
}

/// The decimal digit `d`.
pub open spec fn digit(d: nat) -> char {
    (d + 48) as char
}

/// The decimal numeral of `n`, without leading zeros.
pub open spec fn decimal(n: nat) -> Seq<char>
    decreases n,
{
    if n < 10 {
        seq![digit(n)]
    } else {
        decimal(n / 10).push(digit(n % 10))
    }
}

/// The numeral of a signed number: a minus sign stands before the negative ones.
pub open spec fn signed_decimal(n: int) -> Seq<char> {
    if n < 0 {
        seq!['-'] + decimal((-n) as nat)
    } else {
        decimal(n as nat)
    }
}

pub open spec fn is_digit(c: char) -> bool {
    '0' <= c <= '9'
}

/// The number that a row of decimal digits denotes.
pub open spec fn denoted(s: Seq<char>) -> nat
    decreases s.len(),
{
    if s.len() == 0 {
        0
    } else {
        10 * denoted(s.drop_last()) + (s.last() as int - '0' as int) as nat
    }
}

/// What follows the plus sign that may open a numeral.
pub open spec fn without_plus(s: Seq<char>) -> Seq<char> {
    if s.len() > 0 && s[0] == '+' {
        s.skip(1)
    } else {
        s
    }
}

/// Whether `s` is a port number: digits only, but for a plus sign in front, and
/// at most 65535.
pub open spec fn is_port(s: Seq<char>) -> bool {
    let digits = without_plus(s);
    &&& digits.len() > 0
    &&& forall|i: int| 0 <= i < digits.len() ==> is_digit(#[trigger] digits[i])
    &&& denoted(digits) <= 65535
}

/// No text comes before itself.
pub proof fn precedes_irreflexive(a: Seq<char>)
    ensures
        !precedes(a, a),
    decreases a.len(),
{
    if a.len() > 0 {
        precedes_irreflexive(a.skip(1));
    }
}

/// The order of texts is transitive.
pub proof fn precedes_transitive(a: Seq<char>, b: Seq<char>, c: Seq<char>)
    requires
        precedes(a, b),
        precedes(b, c),
    ensures
        precedes(a, c),
    decreases a.len(),
{
    if a.len() > 0 && a[0] == b[0] && b[0] == c[0] {
        precedes_transitive(a.skip(1), b.skip(1), c.skip(1));
    }
}

/// Of two different texts one comes before the other.
pub proof fn precedes_total(a: Seq<char>, b: Seq<char>)
    ensures
        a == b || precedes(a, b) || precedes(b, a),
    decreases a.len(),
{
    if a.len() > 0 && b.len() > 0 {
        if a[0] == b[0] {
            precedes_total(a.skip(1), b.skip(1));
            if a.skip(1) == b.skip(1) {
                assert(a == seq![a[0]] + a.skip(1));
                assert(b == seq![b[0]] + b.skip(1));
            }
        }
    } else if a.len() == 0 && b.len() == 0 {
        assert(a == b);
    }
}

/// A text in which `part` does not stand is left as it is.
pub proof fn replaced_absent(s: Seq<char>, part: Seq<char>, by: Seq<char>)
    requires
        !occurs(s, part),
    ensures
        replaced(s, part, by) == s,
    decreases s.len(),
{
    if part.len() > 0 && s.len() >= part.len() {
        assert(s.take(part.len() as int) == s.subrange(0, part.len() as int));
        assert(!occurs_at(s, part, 0));
        assert forall|i: int| !occurs_at(s.skip(1), part, i) by {
            assert(!occurs_at(s, part, i + 1));
            if 0 <= i && i + part.len() <= s.skip(1).len() {
                assert(s.skip(1).subrange(i, i + part.len()) == s.subrange(
                    i + 1,
                    i + 1 + part.len(),
                ));
            }
        }
        replaced_absent(s.skip(1), part, by);
        assert(s == seq![s[0]] + s.skip(1));
    }
}

/// The characters of `s`.
pub fn chars_of(s: &str) -> (r: Vec<char>)
    ensures
        r@ == s@,
{
    let mut out: Vec<char> = Vec::new();
    for c in it: s.chars()
        invariant
            out@ == s@.take(it.index() as int),
            it.seq() == s@,
    {
        out.push(c);
    }
    out
}

/// The text of the characters from `from` up to `to`.
pub fn text_between(chars: &Vec<char>, from: usize, to: usize) -> (r: String)
    requires
        from <= to <= chars@.len(),
    ensures
        r@ == chars@.subrange(from as int, to as int),
{
    let mut out = String::new();
    let mut i: usize = from;
    while i < to
        invariant
            from <= i <= to <= chars@.len(),
            out@ == chars@.subrange(from as int, i as int),
        decreases to - i,
    {
        out.push(chars[i]);
        i = i + 1;
    }
    out
}

/// Whether two texts are the same.
pub fn equal_text(a: &str, b: &str) -> (r: bool)
    ensures
        r == (a@ == b@),
{
    let x = chars_of(a);
    let y = chars_of(b);
    if x.len() != y.len() {
        return false;
    }
    let mut i: usize = 0;
    while i < x.len()
        invariant
            x@ == a@,
            y@ == b@,
            x@.len() == y@.len(),
            i <= x@.len(),
            forall|j: int| 0 <= j < i ==> x@[j] == y@[j],
        decreases x@.len() - i,
    {
        if x[i] != y[i] {
            return false;
        }
        i = i + 1;
    }
    assert(a@ =~= b@);
    true
}

fn fold(c: char) -> (r: u32)
    ensures
        r == folded(c),
{
    if 'A' <= c && c <= 'Z' {
        c as u32 + 32
    } else {
        c as u32
    }
}

/// Whether two names differ at most in the case of their ASCII letters.
pub fn equal_name(a: &str, b: &str) -> (r: bool)
    ensures
        r == same_name(a@, b@),
{
    let x = chars_of(a);
    let y = chars_of(b);
    if x.len() != y.len() {
        return false;
    }
    let mut i: usize = 0;
    while i < x.len()
        invariant
            x@ == a@,
            y@ == b@,
            x@.len() == y@.len(),
            i <= x@.len(),
            forall|j: int| 0 <= j < i ==> folded(#[trigger] x@[j]) == folded(y@[j]),
        decreases x@.len() - i,
    {
        if fold(x[i]) != fold(y[i]) {
            assert(folded(a@[i as int]) != folded(b@[i as int]));
            return false;
        }
        i = i + 1;
    }
    true
}

/// Whether `a` comes before `b` in the order of texts.
pub fn comes_before(a: &str, b: &str) -> (r: bool)
    ensures
        r == precedes(a@, b@),
{
    let x = chars_of(a);
    let y = chars_of(b);
    let mut i: usize = 0;
    assert(a@.skip(0) == a@ && b@.skip(0) == b@);
    while i < x.len() && i < y.len()
        invariant
            x@ == a@,
            y@ == b@,
            i <= x@.len(),
            i <= y@.len(),
            precedes(a@, b@) == precedes(a@.skip(i as int), b@.skip(i as int)),
        decreases x@.len() - i,
    {
        if x[i] != y[i] {
            return x[i] < y[i];
        }
        assert(a@.skip(i as int).skip(1) == a@.skip(i + 1));
        assert(b@.skip(i as int).skip(1) == b@.skip(i + 1));
        i = i + 1;
    }
    i < y.len()
}

fn stands_at(s: &Vec<char>, part: &Vec<char>, i: usize) -> (r: bool)
    requires
        i + part@.len() <= s@.len(),
    ensures
        r == occurs_at(s@, part@, i as int),
{
    let length: usize = s.len();
    let mut k: usize = 0;
    while k < part.len()
        invariant
            length == s@.len(),
            i + part@.len() <= length,
            k <= part@.len(),
            forall|j: int| 0 <= j < k ==> s@[i + j] == #[trigger] part@[j],
        decreases part@.len() - k,
    {
        if s[i + k] != part[k] {
            assert(s@.subrange(i as int, i + part@.len())[k as int] != part@[k as int]);
            return false;
        }
        k = k + 1;
    }
    assert(s@.subrange(i as int, i + part@.len()) =~= part@);
    true
}

/// Whether `part` stands anywhere in `s`.
pub fn contains_text(s: &str, part: &str) -> (r: bool)
    ensures
        r == occurs(s@, part@),
{
    let chars = chars_of(s);
    let wanted = chars_of(part);
    let mut i: usize = 0;
    while i < chars.len() && wanted.len() <= chars.len() - i
        invariant
            chars@ == s@,
            wanted@ == part@,
            i <= chars@.len(),
            forall|j: int| 0 <= j < i ==> !occurs_at(s@, part@, j),
        decreases chars@.len() - i,
    {
        if stands_at(&chars, &wanted, i) {
            return true;
        }
        i = i + 1;
    }
    if wanted.len() == 0 {
        assert(occurs_at(s@, part@, i as int)) by {
            assert(s@.subrange(i as int, i as int) =~= part@);
        }
        return true;
    }
    false
}

/// `s` with every `part` exchanged for `by`.
pub fn replace_text(s: &str, part: &str, by: &str) -> (r: String)
    ensures
        r@ == replaced(s@, part@, by@),
{
    let chars = chars_of(s);
    let wanted = chars_of(part);
    let mut out = String::new();
    let mut i: usize = 0;
    assert(s@.skip(0) == s@);
    if wanted.len() > 0 {
        while wanted.len() <= chars.len() - i
            invariant
                chars@ == s@,
                wanted@ == part@,
                part@.len() > 0,
                i <= chars@.len(),
                out@ + replaced(s@.skip(i as int), part@, by@) == replaced(s@, part@, by@),
            decreases chars@.len() - i,
        {
            let ghost rest = s@.skip(i as int);
            let ghost done = out@;
            assert(rest.take(part@.len() as int) == s@.subrange(i as int, i + part@.len()));
            if stands_at(&chars, &wanted, i) {
                out.append(by);
                assert(rest.skip(part@.len() as int) == s@.skip(i + part@.len()));
                assert(out@ + replaced(s@.skip(i + part@.len()), part@, by@) == done + (by@
                    + replaced(s@.skip(i + part@.len()), part@, by@)));
                i = i + wanted.len();
            } else {
                out.push(chars[i]);
                assert(rest.skip(1) == s@.skip(i + 1));
                assert(out@ + replaced(s@.skip(i + 1), part@, by@) == done + (seq![rest[0]]
                    + replaced(s@.skip(i + 1), part@, by@)));
                i = i + 1;
            }
        }
    }
    let rest = text_between(&chars, i, chars.len());
    assert(rest@ == s@.skip(i as int));
    out.append(rest.as_str());
    out
}

/// The views of a row of texts.
pub open spec fn texts(v: Seq<String>) -> Seq<Seq<char>> {
    v.map_values(|s: String| s@)
}

/// The pieces of `s` between the separators.
pub fn split_text(s: &str, separator: char) -> (r: Vec<String>)
    ensures
        texts(r@) == pieces(s@, separator),
{
    let chars = chars_of(s);
    let mut out: Vec<String> = Vec::new();
    let mut piece = String::new();
    let mut i: usize = 0;
    assert(texts(out@).push(piece@) =~= pieces(s@.take(0), separator));
    while i < chars.len()
        invariant
            chars@ == s@,
            i <= chars@.len(),
            texts(out@).push(piece@) == pieces(s@.take(i as int), separator),
        decreases chars@.len() - i,
    {
        let c = chars[i];
        let ghost seen = s@.take(i + 1);
        let ghost before = texts(out@);
        assert(seen.drop_last() == s@.take(i as int));
        assert(before.push(piece@).drop_last() == before);
        if c == separator {
            out.push(piece);
            assert(texts(out@) =~= before.push(piece@));
            piece = String::new();
            assert(piece@ == Seq::<char>::empty());
        } else {
            piece.push(c);
        }
        i = i + 1;
    }
    assert(s@.take(i as int) == s@);
    let ghost before = texts(out@);
    out.push(piece);
    assert(texts(out@) =~= before.push(piece@));
    out
}

/// `s` without the characters `c` at its end.
pub fn trim_trailing(s: &str, c: char) -> (r: String)
    ensures
        r@ == without_trailing(s@, c),
{
    let chars = chars_of(s);
    let mut end: usize = chars.len();
    assert(s@.take(end as int) == s@);
    while end > 0 && chars[end - 1] == c
        invariant
            chars@ == s@,
            end <= chars@.len(),
            without_trailing(s@.take(end as int), c) == without_trailing(s@, c),
        decreases end,
    {
        assert(s@.take(end as int).drop_last() == s@.take(end - 1));
        end = end - 1;
    }
    assert(s@.take(end as int) == chars@.subrange(0, end as int));
    text_between(&chars, 0, end)
}

/// `s` without the white space at either end.
pub fn trim_text(s: &str) -> (r: String)
    ensures
        r@ == trimmed(s@),
{
    let chars = chars_of(s);
    let mut end: usize = chars.len();
    assert(s@.take(end as int) == s@);
    while end > 0 && chars[end - 1].is_whitespace()
        invariant
            chars@ == s@,
            end <= chars@.len(),
            trimmed_end(s@.take(end as int)) == trimmed_end(s@),
        decreases end,
    {
        assert(s@.take(end as int).drop_last() == s@.take(end - 1));
        end = end - 1;
    }
    let ghost kept = s@.take(end as int);
    assert(trimmed_end(s@) == kept);
    let mut start: usize = 0;
    assert(kept.skip(0) == kept);
    while start < end && chars[start].is_whitespace()
        invariant
            chars@ == s@,
            start <= end <= chars@.len(),
            kept == s@.take(end as int),
            trimmed_start(kept.skip(start as int)) == trimmed_start(kept),
        decreases end - start,
    {
        assert(kept.skip(start as int).skip(1) == kept.skip(start + 1));
        start = start + 1;
    }
    assert(kept.skip(start as int) == chars@.subrange(start as int, end as int));
    text_between(&chars, start, end)
}

fn digit_char(d: u64) -> (r: char)
    requires
        d < 10,
    ensures
        r == digit(d as nat),
{
    (d as u8 + 48) as char
}

/// The decimal numeral of `n`.
pub fn decimal_text(n: u64) -> (r: String)
    ensures
        r@ == decimal(n as nat),
    decreases n,
{
    let mut out = if n < 10 {
        String::new()
    } else {
        decimal_text(n / 10)
    };
    out.push(digit_char(n % 10));
    out
}

/// The numeral of a signed number.
pub fn signed_text(n: i64) -> (r: String)
    ensures
        r@ == signed_decimal(n as int),
{
    if n < 0 {
        let mut out = String::new();
        out.push('-');
        let size: u64 = (-(n as i128)) as u64;
        let digits = decimal_text(size);
        out.append(digits.as_str());
        out
    } else {
        decimal_text(n as u64)
    }
}

/// Whether `s` is a port number.
pub fn is_port_number(s: &str) -> (r: bool)
    ensures
        r == is_port(s@),
{
    let chars = chars_of(s);
    let ghost digits = without_plus(s@);
    let start: usize = if chars.len() > 0 && chars[0] == '+' {
        1
    } else {
        0
    };
    assert(digits == s@.skip(start as int));
    let mut i: usize = start;
    let mut value: u32 = 0;
    while i < chars.len()
        invariant
            chars@ == s@,
            start <= i <= chars@.len(),
            digits == without_plus(s@),
            digits == s@.skip(start as int),
            forall|j: int| 0 <= j < i - start ==> is_digit(#[trigger] digits[j]),
            value <= 65536,
            denoted(digits.take(i - start)) <= 65535 ==> value == denoted(digits.take(i - start)),
            denoted(digits.take(i - start)) > 65535 ==> value == 65536,
        decreases chars@.len() - i,
    {
        let c = chars[i];
        assert(c == digits[i - start]);
        if c < '0' || '9' < c {
            assert(!is_digit(digits[i - start]));
            return false;
        }
        let next: u32 = value * 10 + (c as u32 - 48);
        assert(digits.take(i - start + 1).drop_last() == digits.take(i - start));
        value = if next > 65535 {
            65536
        } else {
            next
        };
        i = i + 1;
    }
    assert(digits.take(i - start) == digits);
    i > start && value <= 65535
}

} // verus!
