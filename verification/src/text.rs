//! Characters, words and numbers as text.
use vstd::prelude::*;

use crate::pdf_model::FULL_WIDTH;
use crate::rounding::{hundredths, round_to_hundredths, round_to_tenths, tenths};

verus! {

/// Whether a character has the Unicode property `White_Space`.
pub open spec fn is_whitespace_char(c: char) -> bool {
    let n = c as int;
    ||| 0x09 <= n <= 0x0d
    ||| n == 0x20
    ||| n == 0x85
    ||| n == 0xa0
    ||| n == 0x1680
    ||| 0x2000 <= n <= 0x200a
    ||| n == 0x2028
    ||| n == 0x2029
    ||| n == 0x202f
    ||| n == 0x205f
    ||| n == 0x3000
}

/// Whether a character is one of the letters A to Z, in either case, or one of the ten digits.
pub open spec fn is_basic_alphanumeric(c: char) -> bool {
    let n = c as int;
    0x30 <= n <= 0x39 || 0x41 <= n <= 0x5a || 0x61 <= n <= 0x7a
}

/// Whether a character is a letter or a number in the sense of Unicode.
pub uninterp spec fn is_alphanumeric_char(c: char) -> bool;

/// `char::is_whitespace` answers for the Unicode property `White_Space`.
pub assume_specification[ char::is_whitespace ](c: char) -> (r: bool)
    ensures
        r == is_whitespace_char(c),
;

/// `char::is_alphanumeric` answers for the Unicode properties of letters and numbers. Among the
/// characters of ASCII these are the letters and the digits.
pub assume_specification[ char::is_alphanumeric ](c: char) -> (r: bool)
    ensures
        r == is_alphanumeric_char(c),
        (c as int) < 128 ==> r == is_basic_alphanumeric(c),
;

/// `String::push` appends one character.
pub assume_specification[ String::push ](s: &mut String, c: char)
    ensures
        final(s)@ == old(s)@.push(c),
;

/// `String::pop` takes the last character off, and answers `None` on an empty string,
/// which it leaves alone.
pub assume_specification[ String::pop ](s: &mut String) -> (r: Option<char>)
    ensures
        old(s)@.len() == 0 ==> r is None && final(s)@ == old(s)@,
        old(s)@.len() > 0 ==> r == Some(old(s)@.last()) && final(s)@ == old(s)@.drop_last(),
;

/// `str::trim` drops the white space at both ends and nothing else.
pub assume_specification<'a>[ str::trim ](s: &'a str) -> (r: &'a str)
    ensures
        r@ == trimmed(s@),
;

/// What is left of a text without its leading white space.
pub open spec fn trim_start(s: Seq<char>) -> Seq<char>
    decreases s.len(),
{
    if s.len() > 0 && is_whitespace_char(s[0]) {
        trim_start(s.drop_first())
    } else {
        s
    }
}

/// What is left of a text without its trailing white space.
pub open spec fn trim_end(s: Seq<char>) -> Seq<char>
    decreases s.len(),
{
    if s.len() > 0 && is_whitespace_char(s.last()) {
        trim_end(s.drop_last())
    } else {
        s
    }
}

/// What is left of a text without the white space at both its ends.
pub open spec fn trimmed(s: Seq<char>) -> Seq<char> {
    trim_end(trim_start(s))
}

/// Nothing but white space, or nothing at all.
pub open spec fn is_blank(s: Seq<char>) -> bool {
    trimmed(s).len() == 0
}

/// Some character of the text is a letter or a number.
pub open spec fn has_alphanumeric(s: Seq<char>) -> bool {
    exists|i: int| 0 <= i < s.len() && is_alphanumeric_char(#[trigger] s[i])
}

/// The content of an optional text.
pub open spec fn optional(s: Option<String>) -> Option<Seq<char>> {
    match s {
        Some(text) => Some(text@),
        None => None,
    }
}

/// The contents of a list of strings.
pub open spec fn texts(v: Seq<String>) -> Seq<Seq<char>> {
    v.map_values(|s: String| s@)
}

/// The maximal runs of characters other than white space, in order.
pub open spec fn words(s: Seq<char>) -> Seq<Seq<char>>
    decreases s.len(),
{
    if s.len() == 0 {
        Seq::empty()
    } else if is_whitespace_char(s.last()) {
        words(s.drop_last())
    } else if s.len() > 1 && !is_whitespace_char(s[s.len() - 2]) {
        let before = words(s.drop_last());
        before.drop_last().push(before.last().push(s.last()))
    } else {
        words(s.drop_last()).push(seq![s.last()])
    }
}

/// The parts joined by single spaces.
pub open spec fn join_spaced(parts: Seq<Seq<char>>) -> Seq<char>
    decreases parts.len(),
{
    if parts.len() == 0 {
        Seq::empty()
    } else if parts.len() == 1 {
        parts[0]
    } else {
        join_spaced(parts.drop_last()).push(' ') + parts.last()
    }
}

/// The digit that stands for a number below ten.
pub open spec fn digit(d: nat) -> char {
    (48 + d) as char
}

/// A number in decimal, with no leading zeros.
pub open spec fn decimal(n: nat) -> Seq<char>
    decreases n,
{
    if n < 10 {
        seq![digit(n)]
    } else {
        decimal(n / 10).push(digit(n % 10))
    }
}

/// A number in decimal, padded to two digits.
pub open spec fn decimal2(n: nat) -> Seq<char> {
    if n < 10 {
        seq!['0', digit(n)]
    } else {
        decimal(n)
    }
}

/// A number in decimal, with a minus sign where it is negative.
pub open spec fn signed_decimal(v: int) -> Seq<char> {
    if v < 0 {
        seq!['-'] + decimal((-v) as nat)
    } else {
        decimal(v as nat)
    }
}

pub open spec fn magnitude(v: int) -> nat {
    if v < 0 {
        (-v) as nat
    } else {
        v as nat
    }
}

/// A count of millionths written with one digit after the point. The number that is written is
/// the one in double precision that is closest to the count.
pub open spec fn one_decimal(v: int) -> Seq<char> {
    let count = tenths(magnitude(v));
    (if v < 0 {
        seq!['-']
    } else {
        Seq::<char>::empty()
    }) + decimal(count / 10).push('.').push(digit(count % 10))
}

/// A share of the page width as a percentage, rounded to an integer. The percentage is worked out
/// in double precision.
pub open spec fn percent(v: int) -> Seq<char> {
    (if v < 0 {
        seq!['-']
    } else {
        Seq::<char>::empty()
    }) + decimal(hundredths(magnitude(v), FULL_WIDTH as nat))
}

/// The text with every occurrence of a part replaced, from the left. Occurrences do not overlap.
pub open spec fn replaced(s: Seq<char>, part: Seq<char>, with: Seq<char>) -> Seq<char>
    decreases s.len(),
{
    if s.len() == 0 || part.len() == 0 {
        s
    } else if part.is_prefix_of(s) {
        with + replaced(s.skip(part.len() as int), part, with)
    } else {
        seq![s[0]] + replaced(s.skip(1), part, with)
    }
}

/// A number in decimal consists of digits.
pub proof fn lemma_decimal_digits(n: nat)
    ensures
        forall|i: int|
            0 <= i < decimal(n).len() ==> '0' <= #[trigger] decimal(n)[i] && decimal(n)[i] <= '9',
    decreases n,
{
    assert forall|d: nat| d < 10 implies '0' <= #[trigger] digit(d) && digit(d) <= '9' by {
        assert(digit(d) as int == 48 + d);
    }
    if n >= 10 {
        let less = decimal(n / 10);
        lemma_decimal_digits(n / 10);
        assert forall|i: int| 0 <= i < decimal(n).len() implies '0' <= #[trigger] decimal(n)[i]
            && decimal(n)[i] <= '9' by {
            if i < less.len() {
                assert(decimal(n)[i] == less[i]);
            } else {
                assert(decimal(n)[i] == digit(n % 10));
            }
        }
    } else {
        assert(decimal(n)[0] == digit(n));
    }
}

/// A trimmed text is no longer than it was, and neither begins nor ends in white space.
pub proof fn lemma_trim_keeps_inside(s: Seq<char>)
    ensures
        trimmed(s).len() <= s.len(),
        trimmed(s).len() > 0 ==> !is_whitespace_char(trimmed(s)[0]) && !is_whitespace_char(
            trimmed(s).last(),
        ),
{
    lemma_trim_start(s);
    lemma_trim_end(trim_start(s));
}

proof fn lemma_trim_start(s: Seq<char>)
    ensures
        trim_start(s).len() <= s.len(),
        trim_start(s).len() > 0 ==> !is_whitespace_char(trim_start(s)[0]),
    decreases s.len(),
{
    if s.len() > 0 && is_whitespace_char(s[0]) {
        lemma_trim_start(s.drop_first());
    }
}

proof fn lemma_trim_end(s: Seq<char>)
    ensures
        trim_end(s).len() <= s.len(),
        trim_end(s).len() > 0 ==> !is_whitespace_char(trim_end(s).last()),
        trim_end(s).len() > 0 ==> trim_end(s)[0] == s[0],
    decreases s.len(),
{
    if s.len() > 0 && is_whitespace_char(s.last()) {
        lemma_trim_end(s.drop_last());
    }
}

/// Trimming a text that is trimmed already changes nothing.
pub proof fn trim_is_idempotent(s: Seq<char>)
    ensures
        trimmed(trimmed(s)) == trimmed(s),
{
    lemma_trim_keeps_inside(s);
}

proof fn lemma_digits(a: nat, b: nat)
    requires
        a < 10,
        b < 10,
    ensures
        digit(a) == digit(b) ==> a == b,
        digit(a) == '0' ==> a == 0,
{
}

proof fn lemma_decimal_start(n: nat)
    ensures
        decimal(n).len() > 0,
        n >= 10 ==> decimal(n).len() > 1,
        n > 0 ==> decimal(n)[0] != '0',
    decreases n,
{
    if n < 10 {
        lemma_digits(n, 0);
    } else {
        lemma_decimal_start(n / 10);
    }
}

/// Ten to a power.
pub open spec fn power_of_ten(k: nat) -> nat
    decreases k,
{
    if k == 0 {
        1
    } else {
        10 * power_of_ten((k - 1) as nat)
    }
}

/// A number below a power of ten has no more digits than its exponent.
pub proof fn lemma_decimal_length(n: nat, k: nat)
    requires
        0 < k,
        n < power_of_ten(k),
    ensures
        decimal(n).len() <= k,
    decreases k,
{
    if n >= 10 {
        reveal_with_fuel(power_of_ten, 3);
        lemma_decimal_length(n / 10, (k - 1) as nat);
    }
}

/// Two different numbers are written differently.
pub proof fn numbers_differ(a: nat, b: nat)
    requires
        a != b,
    ensures
        decimal(a) != decimal(b),
    decreases a,
{
    lemma_decimal_start(a);
    lemma_decimal_start(b);
    if a < 10 && b < 10 {
        lemma_digits(a, b);
        assert(decimal(a)[0] != decimal(b)[0]);
    } else if a >= 10 && b >= 10 {
        if a / 10 != b / 10 {
            numbers_differ(a / 10, b / 10);
            assert(decimal(a).drop_last() == decimal(a / 10));
            assert(decimal(b).drop_last() == decimal(b / 10));
        } else {
            lemma_digits(a % 10, b % 10);
            assert(decimal(a).last() != decimal(b).last());
        }
    } else {
        assert(decimal(a).len() != decimal(b).len());
    }
}

/// Two different numbers are written differently when they are padded to two digits, too.
pub proof fn two_digit_numbers_differ(a: nat, b: nat)
    requires
        a != b,
    ensures
        decimal2(a) != decimal2(b),
{
    lemma_decimal_start(a);
    lemma_decimal_start(b);
    numbers_differ(a, b);
    if a < 10 && b < 10 {
        lemma_digits(a, b);
        assert(decimal2(a)[1] != decimal2(b)[1]);
    } else if a < 10 {
        assert(decimal2(a)[0] == '0' && decimal2(b)[0] != '0');
    } else if b < 10 {
        assert(decimal2(b)[0] == '0' && decimal2(a)[0] != '0');
    }
}

/// The number that decimal digits spell.
pub open spec fn spelled_number(digits: Seq<char>) -> int
    decreases digits.len(),
{
    if digits.len() == 0 {
        0
    } else {
        10 * spelled_number(digits.drop_last()) + (digits.last() as int - 48)
    }
}

/// A number in decimal spells that number, with digits alone and no zero in front.
pub proof fn decimals_spell_their_number(n: nat)
    ensures
        spelled_number(decimal(n)) == n,
        decimal(n).len() > 0,
        n > 0 ==> decimal(n)[0] != '0',
        forall|i: int|
            0 <= i < decimal(n).len() ==> '0' <= #[trigger] decimal(n)[i] && decimal(n)[i] <= '9',
    decreases n,
{
    lemma_decimal_digits(n);
    lemma_decimal_start(n);
    assert(forall|d: nat| d < 10 ==> #[trigger] digit(d) as int == 48 + d);
    if n >= 10 {
        decimals_spell_their_number(n / 10);
        assert(decimal(n).drop_last() == decimal(n / 10));
        assert(decimal(n).last() == digit(n % 10));
    } else {
        assert(decimal(n).drop_last() == Seq::<char>::empty());
        assert(spelled_number(Seq::empty()) == 0);
        assert(decimal(n).last() == digit(n));
    }
}

/// A number that is padded to two digits spells the same number and has at least two digits, no
/// more than it needs.
pub proof fn padded_decimals_spell_their_number(n: nat)
    ensures
        spelled_number(decimal2(n)) == n,
        decimal2(n).len() >= 2,
        n >= 10 ==> decimal2(n) == decimal(n),
        n < 10 ==> decimal2(n).len() == 2,
{
    decimals_spell_their_number(n);
    lemma_decimal_start(n);
    if n < 10 {
        let s = decimal2(n);
        assert(s.drop_last() == seq!['0']);
        assert(seq!['0'].drop_last() == Seq::<char>::empty());
        assert(spelled_number(Seq::empty()) == 0);
        assert(spelled_number(seq!['0']) == 0);
        assert(digit(n) as int == 48 + n);
    }
}

/// A negative number is written with a minus sign before what it is without it, and no other.
pub proof fn signed_decimals_spell_their_number(v: int)
    ensures
        v < 0 ==> signed_decimal(v)[0] == '-' && spelled_number(signed_decimal(v).skip(1)) == -v,
        v >= 0 ==> spelled_number(signed_decimal(v)) == v && signed_decimal(v)[0] != '-',
{
    if v < 0 {
        decimals_spell_their_number((-v) as nat);
        assert(signed_decimal(v).skip(1) == decimal((-v) as nat));
    } else {
        decimals_spell_their_number(v as nat);
        assert('0' <= decimal(v as nat)[0]);
    }
}

/// A measure is written with one digit behind the point, and what is written lies no further than
/// half a tenth from it.
pub proof fn measures_are_written_to_the_nearest_tenth(v: int)
    requires
        0 <= v <= 0x10_0000_0000_0000,
    ensures
        ({
            let s = one_decimal(v);
            let n = s.len() as int;
            let shown = 10 * spelled_number(s.take(n - 2)) + (s[n - 1] as int - 48);
            &&& n >= 3
            &&& s[n - 2] == '.'
            &&& '0' <= s[n - 1] && s[n - 1] <= '9'
            &&& -50_000 <= 100_000 * shown - v <= 50_000
        }),
{
    crate::rounding::tenths_are_close(v as nat);
    let count = tenths(v as nat);
    decimals_spell_their_number(count / 10);
    let s = one_decimal(v);
    assert(s.take(s.len() - 2) == decimal(count / 10));
    assert(digit(count % 10) as int == 48 + count % 10);
}

/// A share of the page width is written as a percentage that lies no further than half a percent
/// from it, but for the last bits of a number in double precision.
pub proof fn shares_are_written_to_the_nearest_percent(v: int)
    requires
        0 <= v <= 1_000_000_000_000_000,
    ensures
        -1_000_000_000_000_100 <= 2 * (1_000_000_000_000_000 * spelled_number(percent(v)) - 100
            * v) <= 1_000_000_000_000_100,
{
    crate::rounding::hundredths_are_close(v as nat, FULL_WIDTH as nat);
    let count = hundredths(v as nat, FULL_WIDTH as nat);
    decimals_spell_their_number(count);
    assert(percent(v) == decimal(count));
}

/// No character of the text is white space.
pub open spec fn is_solid(s: Seq<char>) -> bool {
    forall|i: int| 0 <= i < s.len() ==> !is_whitespace_char(#[trigger] s[i])
}

proof fn lemma_words_of_solid(w: Seq<char>)
    requires
        is_solid(w),
        w.len() > 0,
    ensures
        words(w) == seq![w],
    decreases w.len(),
{
    let less = w.drop_last();
    assert(!is_whitespace_char(w[w.len() - 1]));
    if w.len() == 1 {
        assert(words(less) == Seq::<Seq<char>>::empty());
        assert(w == seq![w.last()]);
        assert(words(w) == seq![w]);
    } else {
        assert(!is_whitespace_char(w[w.len() - 2]));
        assert forall|i: int| 0 <= i < less.len() implies !is_whitespace_char(
            #[trigger] less[i],
        ) by {
            assert(less[i] == w[i]);
        }
        lemma_words_of_solid(less);
        assert(less.push(w.last()) == w);
        assert(words(w) == seq![w]);
    }
}

proof fn lemma_words_around_space(a: Seq<char>, c: char, b: Seq<char>)
    requires
        is_whitespace_char(c),
    ensures
        words(a.push(c) + b) == words(a) + words(b),
    decreases b.len(),
{
    let all = a.push(c) + b;
    if b.len() == 0 {
        assert(all == a.push(c));
        assert(all.drop_last() == a);
        assert(words(a) + words(b) == words(a));
    } else {
        let less = b.drop_last();
        lemma_words_around_space(a, c, less);
        assert(all.drop_last() == a.push(c) + less);
        assert(all.last() == b.last());
        let (x, y) = (words(a), words(less));
        if is_whitespace_char(b.last()) {
        } else if b.len() > 1 && !is_whitespace_char(b[b.len() - 2]) {
            assert(all[all.len() - 2] == b[b.len() - 2]);
            lemma_words_nonempty(less);
            let last = y.last().push(b.last());
            assert((x + y).drop_last().push(last) == x + y.drop_last().push(last));
        } else {
            assert(all[all.len() - 2] == (if b.len() > 1 {
                b[b.len() - 2]
            } else {
                c
            }));
            assert((x + y).push(seq![b.last()]) == x + y.push(seq![b.last()]));
        }
    }
}

proof fn lemma_words_nonempty(s: Seq<char>)
    requires
        s.len() > 0,
        !is_whitespace_char(s.last()),
    ensures
        words(s).len() > 0,
    decreases s.len(),
{
    if s.len() > 1 && !is_whitespace_char(s[s.len() - 2]) {
        lemma_words_nonempty(s.drop_last());
    }
}

/// White space parts words and is lost: the words of a text are those before it and those behind
/// it. A text without white space is one word, and an empty one has none.
pub proof fn words_are_parted_by_white_space(a: Seq<char>, c: char, b: Seq<char>, w: Seq<char>)
    requires
        is_whitespace_char(c),
        is_solid(w),
        w.len() > 0,
    ensures
        words(a.push(c) + b) == words(a) + words(b),
        words(w) == seq![w],
        words(Seq::empty()) == Seq::<Seq<char>>::empty(),
{
    lemma_words_around_space(a, c, b);
    lemma_words_of_solid(w);
}

/// The white space at both ends is taken off, and nothing but that: what is taken off is white
/// space, and what is left neither begins nor ends in any.
pub proof fn trimming_takes_off_white_space(s: Seq<char>)
    ensures
        exists|i: int, j: int|
            {
                &&& 0 <= i <= j <= s.len()
                &&& trimmed(s) == #[trigger] s.subrange(i, j)
                &&& forall|k: int|
                    0 <= k < i || j <= k < s.len() ==> is_whitespace_char(#[trigger] s[k])
                &&& i < j ==> !is_whitespace_char(s[i]) && !is_whitespace_char(s[j - 1])
            },
{
    let i = lemma_trim_start_at(s);
    let rest = trim_start(s);
    let n = lemma_trim_end_at(rest);
    let j = i + n;
    lemma_trim_keeps_inside(s);
    assert(rest.take(n) == s.subrange(i, j));
    assert forall|k: int| 0 <= k < i || j <= k < s.len() implies is_whitespace_char(
        #[trigger] s[k],
    ) by {
        if k >= j {
            assert(rest[k - i] == s[k]);
        }
    }
    assert(i < j ==> trimmed(s)[0] == s[i] && trimmed(s).last() == s[j - 1]);
}

/// A text is blank exactly where all its characters are white space, and one letter or number
/// anywhere is enough for it to have one.
pub proof fn one_character_is_enough(s: Seq<char>, i: int)
    ensures
        0 <= i < s.len() && !is_whitespace_char(s[i]) ==> !is_blank(s),
        (forall|k: int| 0 <= k < s.len() ==> is_whitespace_char(#[trigger] s[k])) ==> is_blank(s),
        0 <= i < s.len() && is_alphanumeric_char(s[i]) ==> has_alphanumeric(s),
        (forall|k: int| 0 <= k < s.len() ==> !is_alphanumeric_char(#[trigger] s[k]))
            ==> !has_alphanumeric(s),
{
    trimming_takes_off_white_space(s);
    let (a, b) = choose|a: int, b: int|
        {
            &&& 0 <= a <= b <= s.len()
            &&& trimmed(s) == #[trigger] s.subrange(a, b)
            &&& forall|k: int|
                0 <= k < a || b <= k < s.len() ==> is_whitespace_char(#[trigger] s[k])
            &&& a < b ==> !is_whitespace_char(s[a]) && !is_whitespace_char(s[b - 1])
        };
    assert(trimmed(s).len() == b - a);
    if is_blank(s) && 0 <= i < s.len() {
        assert(is_whitespace_char(s[i]));
    }
}

proof fn lemma_trim_start_at(s: Seq<char>) -> (i: int)
    ensures
        0 <= i <= s.len(),
        trim_start(s) == s.skip(i),
        forall|k: int| 0 <= k < i ==> is_whitespace_char(#[trigger] s[k]),
    decreases s.len(),
{
    if s.len() > 0 && is_whitespace_char(s[0]) {
        let rest = s.drop_first();
        let i = lemma_trim_start_at(rest);
        assert(rest.skip(i) == s.skip(i + 1));
        assert forall|k: int| 0 <= k < i + 1 implies is_whitespace_char(#[trigger] s[k]) by {
            if k > 0 {
                assert(rest[k - 1] == s[k]);
            }
        }
        i + 1
    } else {
        assert(s.skip(0) == s);
        0
    }
}

proof fn lemma_trim_end_at(s: Seq<char>) -> (n: int)
    ensures
        0 <= n <= s.len(),
        trim_end(s) == s.take(n),
        forall|k: int| n <= k < s.len() ==> is_whitespace_char(#[trigger] s[k]),
    decreases s.len(),
{
    if s.len() > 0 && is_whitespace_char(s.last()) {
        let less = s.drop_last();
        let n = lemma_trim_end_at(less);
        assert(less.take(n) == s.take(n));
        assert forall|k: int| n <= k < s.len() implies is_whitespace_char(#[trigger] s[k]) by {
            if k < less.len() {
                assert(less[k] == s[k]);
            }
        }
        n
    } else {
        assert(s.take(s.len() as int) == s);
        s.len() as int
    }
}

/// A part stands in a text at this place.
pub open spec fn stands_in(s: Seq<char>, part: Seq<char>, at: int) -> bool {
    0 <= at && at + part.len() <= s.len() && s.subrange(at, at + part.len()) == part
}

/// Replacing begins at the first place where the part stands and goes on behind it. A text in
/// which the part stands nowhere is left as it is.
pub proof fn replacing_goes_from_the_left(
    s: Seq<char>,
    part: Seq<char>,
    with: Seq<char>,
    at: int,
)
    requires
        part.len() > 0,
        0 <= at <= s.len(),
        at == s.len() || stands_in(s, part, at),
        forall|k: int| 0 <= k < at ==> !#[trigger] stands_in(s, part, k),
    ensures
        at < s.len() ==> replaced(s, part, with) == s.take(at) + with + replaced(
            s.skip(at + part.len()),
            part,
            with,
        ),
        at == s.len() ==> replaced(s, part, with) == s,
    decreases at,
{
    if s.len() > 0 {
        if at == 0 {
            assert(s.subrange(0, part.len() as int) == part);
            assert(part.is_prefix_of(s));
            assert(s.take(0) + with == with);
        } else {
            let rest = s.skip(1);
            assert(!stands_in(s, part, 0));
            if part.is_prefix_of(s) {
                assert(s.subrange(0, part.len() as int) == part);
            }
            assert forall|k: int| 0 <= k < at - 1 implies !#[trigger] stands_in(
                rest,
                part,
                k,
            ) by {
                assert(!stands_in(s, part, k + 1));
                if k + part.len() <= rest.len() {
                    assert(rest.subrange(k, k + part.len()) == s.subrange(
                        k + 1,
                        k + 1 + part.len(),
                    ));
                }
            }
            if at < s.len() {
                assert(rest.subrange(at - 1, at - 1 + part.len()) == s.subrange(
                    at,
                    at + part.len(),
                ));
            }
            replacing_goes_from_the_left(rest, part, with, at - 1);
            if at < s.len() {
                assert(rest.skip(at - 1 + part.len()) == s.skip(at + part.len()));
                assert(seq![s[0]] + (rest.take(at - 1) + with + replaced(
                    s.skip(at + part.len()),
                    part,
                    with,
                )) == s.take(at) + with + replaced(s.skip(at + part.len()), part, with));
            } else {
                assert(seq![s[0]] + rest == s);
            }
        }
    }
}

/// Whether two texts are the same.
pub fn same_text(a: &str, b: &str) -> (r: bool)
    ensures
        r == (a@ == b@),
{
    a.to_owned() == b.to_owned()
}

/// Two texts, one after the other.
pub fn joined(a: &str, b: &str) -> (r: String)
    ensures
        r@ == a@ + b@,
{
    let mut out: String = a.to_owned();
    out.append(b);
    out
}

/// Whether some character of `s` is a letter or a number.
pub fn contains_alphanumeric(s: &str) -> (r: bool)
    ensures
        r == has_alphanumeric(s@),
{
    for c in it: s.chars()
        invariant
            it.seq() == s@,
            forall|i: int| 0 <= i < it.index() ==> !is_alphanumeric_char(#[trigger] s@[i]),
    {
        if c.is_alphanumeric() {
            assert(is_alphanumeric_char(s@[it.index() as int]));
            return true;
        }
    }
    false
}

/// Splits a text at its white space, runs of which count once.
pub fn split_words(s: &str) -> (r: Vec<String>)
    ensures
        texts(r@) == words(s@),
{
    let mut done: Vec<String> = Vec::new();
    let mut current = String::new();
    assert(s@.take(0) == Seq::<char>::empty());
    assert(texts(done@) == Seq::<Seq<char>>::empty());
    for c in it: s.chars()
        invariant
            it.seq() == s@,
            current@.len() > 0 <==> it.index() > 0 && !is_whitespace_char(s@[it.index() - 1]),
            words(s@.take(it.index() as int)) == (if current@.len() > 0 {
                texts(done@).push(current@)
            } else {
                texts(done@)
            }),
    {
        let ghost n = it.index() as int;
        let ghost before = s@.take(n);
        let ghost after = s@.take(n + 1);
        let ghost held = current@;
        let ghost kept = done@;
        assert(after.drop_last() == before);
        assert(after.last() == c);
        if c.is_whitespace() {
            if !current.as_str().is_empty() {
                done.push(current);
                current = String::new();
                assert(texts(done@) == texts(kept).push(held));
            }
        } else {
            current.push(c);
            proof {
                if n > 0 {
                    assert(after[after.len() - 2] == s@[n - 1]);
                }
                if held.len() > 0 {
                    let w = words(before);
                    assert(w.drop_last().push(w.last().push(c)) == texts(done@).push(held.push(c)));
                } else {
                    assert(seq![c] == current@);
                }
            }
        }
    }
    assert(s@.take(s@.len() as int) == s@);
    if !current.as_str().is_empty() {
        let ghost kept = done@;
        let ghost held = current@;
        done.push(current);
        assert(texts(done@) == texts(kept).push(held));
    }
    done
}

/// Appends a number in decimal.
pub fn push_decimal(out: &mut String, n: u128)
    ensures
        final(out)@ == old(out)@ + decimal(n as nat),
    decreases n,
{
    if n >= 10 {
        push_decimal(out, n / 10);
    }
    let d: u8 = (n % 10) as u8;
    let c = (48u8 + d) as char;
    assert(c == digit((n % 10) as nat));
    out.push(c);
}

/// Appends a number in decimal, padded to two digits.
pub fn push_decimal2(out: &mut String, n: u128)
    ensures
        final(out)@ == old(out)@ + decimal2(n as nat),
{
    if n < 10 {
        out.push('0');
    }
    push_decimal(out, n);
}

/// Appends a number in decimal, with a minus sign where it is negative.
pub fn push_signed_decimal(out: &mut String, v: i64)
    ensures
        final(out)@ == old(out)@ + signed_decimal(v as int),
{
    let ghost before = out@;
    if v < 0 {
        out.push('-');
        push_decimal(out, (-(v as i128)) as u128);
        assert(out@ == before + signed_decimal(v as int));
    } else {
        push_decimal(out, v as u128);
    }
}

fn size_of(v: i128) -> (r: u128)
    ensures
        r == magnitude(v as int),
        r <= 0x8000_0000_0000_0000_0000_0000_0000_0000,
{
    if v < 0 {
        (-(v + 1)) as u128 + 1
    } else {
        v as u128
    }
}

/// Appends a count of millionths with one digit after the point.
pub fn push_one_decimal(out: &mut String, v: i128)
    ensures
        final(out)@ == old(out)@ + one_decimal(v as int),
{
    if v < 0 {
        out.push('-');
    }
    let size: u128 = size_of(v);
    let tenths: u128 = round_to_tenths(size);
    push_decimal(out, tenths / 10);
    out.push('.');
    push_decimal(out, tenths % 10);
}

/// Appends a share of the page width as a percentage, rounded to an integer.
pub fn push_percent(out: &mut String, v: i64)
    ensures
        final(out)@ == old(out)@ + percent(v as int),
{
    if v < 0 {
        out.push('-');
    }
    let size: u128 = size_of(v as i128);
    push_decimal(out, round_to_hundredths(size as u64, FULL_WIDTH as u64));
}

} // verus!
