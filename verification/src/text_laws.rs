//! What the functions on text find, cut and compare.

use vstd::prelude::*;

use crate::text::{
    after_prefix, decimal, digits_value, find, hex_char, hexadecimal, is_digit, is_space, lines,
    lemma_decimal_reads_back, lemma_find_from, occurs_at, parsed_u32, signed_decimal, text_le,
    trim, trim_end, trim_start, without_return,
};

verus! {

/// Whether `part` stands in `s` at `i`, character by character.
pub open spec fn stands_at(s: Seq<char>, part: Seq<char>, i: int) -> bool {
    &&& 0 <= i && i + part.len() <= s.len()
    &&& forall|k: int| 0 <= k < part.len() ==> #[trigger] s[i + k] == part[k]
}

proof fn lemma_stands_at(s: Seq<char>, part: Seq<char>, i: int)
    ensures
        stands_at(s, part, i) == occurs_at(s, part, i),
{
    if 0 <= i && i + part.len() <= s.len() {
        let cut = s.subrange(i, i + part.len());
        if stands_at(s, part, i) {
            assert forall|k: int| 0 <= k < part.len() implies cut[k] == part[k] by {
                assert(s[i + k] == part[k]);
            }
            assert(cut =~= part);
        }
        if occurs_at(s, part, i) {
            assert forall|k: int| 0 <= k < part.len() implies #[trigger] s[i + k] == part[k] by {
                assert(cut[k] == s[i + k]);
            }
        }
    }
}

/// What is found is the first place where the text stands; nothing is found exactly if it
/// stands nowhere.
pub proof fn law_the_first_place_is_found(s: Seq<char>, part: Seq<char>)
    ensures
        match find(s, part) {
            Some(i) => stands_at(s, part, i) && forall|k: int|
                0 <= k < i ==> !#[trigger] stands_at(s, part, k),
            None => forall|k: int| !#[trigger] stands_at(s, part, k),
        },
{
    lemma_find_from(s, part, 0);
    match find(s, part) {
        Some(i) => {
            lemma_stands_at(s, part, i);
            assert forall|k: int| 0 <= k < i implies !#[trigger] stands_at(s, part, k) by {
                lemma_stands_at(s, part, k);
            }
        },
        None => {
            assert forall|k: int| !#[trigger] stands_at(s, part, k) by {
                lemma_stands_at(s, part, k);
            }
        },
    }
}

/// What follows a prefix is the rest of the text behind it; there is a rest exactly if the
/// text starts with the prefix.
pub proof fn law_the_prefix_is_taken_off(s: Seq<char>, prefix: Seq<char>)
    ensures
        match after_prefix(s, prefix) {
            Some(rest) => s == prefix + rest,
            None => !stands_at(s, prefix, 0),
        },
        forall|rest: Seq<char>| after_prefix(#[trigger] (prefix + rest), prefix) == Some(rest),
{
    if let Some(rest) = after_prefix(s, prefix) {
        assert(s =~= prefix + rest);
    } else if stands_at(s, prefix, 0) {
        assert forall|k: int| 0 <= k < prefix.len() implies s[k] == prefix[k] by {
            assert(s[0 + k] == prefix[k]);
        }
        assert(prefix.is_prefix_of(s));
    }
    assert forall|rest: Seq<char>| after_prefix(#[trigger] (prefix + rest), prefix) == Some(
        rest,
    ) by {
        let all = prefix + rest;
        assert(prefix.is_prefix_of(all));
        assert(all.skip(prefix.len() as int) =~= rest);
    }
}

/// Whether the characters before `from` and from `to` on are white space, and those next to
/// them inside are not.
pub open spec fn is_core(s: Seq<char>, from: int, to: int) -> bool {
    &&& 0 <= from <= to <= s.len()
    &&& forall|k: int| 0 <= k < from ==> is_space(#[trigger] s[k])
    &&& forall|k: int| to <= k < s.len() ==> is_space(#[trigger] s[k])
    &&& from < to ==> !is_space(s[from]) && !is_space(s[to - 1])
}

proof fn lemma_trim_start(s: Seq<char>)
    ensures
        ({
            let from = s.len() - trim_start(s).len();
            &&& 0 <= from && trim_start(s) == s.skip(from)
            &&& forall|k: int| 0 <= k < from ==> is_space(#[trigger] s[k])
            &&& from < s.len() ==> !is_space(s[from])
        }),
    decreases s.len(),
{
    if s.len() > 0 && is_space(s[0]) {
        let rest = s.skip(1);
        lemma_trim_start(rest);
        let from = s.len() - trim_start(s).len();
        assert(rest.skip(from - 1) =~= s.skip(from));
        assert forall|k: int| 0 <= k < from implies is_space(#[trigger] s[k]) by {
            if k > 0 {
                assert(rest[k - 1] == s[k]);
            }
        }
        if from < s.len() {
            assert(rest[from - 1] == s[from]);
        }
    } else {
        assert(s.skip(0) =~= s);
    }
}

proof fn lemma_trim_end(s: Seq<char>)
    ensures
        ({
            let to = trim_end(s).len() as int;
            &&& to <= s.len() && trim_end(s) == s.take(to)
            &&& forall|k: int| to <= k < s.len() ==> is_space(#[trigger] s[k])
            &&& to > 0 ==> !is_space(s[to - 1])
        }),
    decreases s.len(),
{
    if s.len() > 0 && is_space(s.last()) {
        let init = s.drop_last();
        lemma_trim_end(init);
        let to = trim_end(s).len() as int;
        assert(init.take(to) =~= s.take(to));
        assert forall|k: int| to <= k < s.len() implies is_space(#[trigger] s[k]) by {
            if k < init.len() {
                assert(init[k] == s[k]);
            }
        }
        if to > 0 {
            assert(init[to - 1] == s[to - 1]);
        }
    } else {
        assert(s.take(s.len() as int) =~= s);
    }
}

/// Trimming takes off exactly the white space around a text.
pub proof fn law_white_space_around_is_taken_off(s: Seq<char>)
    ensures
        exists|from: int, to: int| #[trigger] is_core(s, from, to) && trim(s) == s.subrange(
            from,
            to,
        ),
{
    lemma_trim_start(s);
    let from = s.len() - trim_start(s).len();
    let rest = s.skip(from);
    lemma_trim_end(rest);
    let to = from + trim(s).len();
    assert(rest.take(to - from) =~= s.subrange(from, to));
    assert forall|k: int| to <= k < s.len() implies is_space(#[trigger] s[k]) by {
        assert(rest[k - from] == s[k]);
    }
    if from < to {
        assert(rest[to - from - 1] == s[to - 1]);
    }
    assert(is_core(s, from, to));
}

/// What has no white space at its ends is left alone.
pub proof fn law_nothing_else_is_taken_off(s: Seq<char>)
    requires
        s.len() > 0 ==> !is_space(s[0]) && !is_space(s.last()),
    ensures
        trim(s) == s,
{
}

/// The texts with a line feed after each.
pub open spec fn with_line_feeds(parts: Seq<Seq<char>>) -> Seq<char>
    decreases parts.len(),
{
    if parts.len() == 0 {
        Seq::empty()
    } else {
        parts[0] + seq!['\n'] + with_line_feeds(parts.skip(1))
    }
}

/// Whether a text holds neither line feeds nor carriage returns.
pub open spec fn is_one_line(s: Seq<char>) -> bool {
    forall|i: int| 0 <= i < s.len() ==> #[trigger] s[i] != '\n' && s[i] != '\r'
}

/// Lines that are written with a line feed after each read back as they are.
pub proof fn law_lines_read_back(parts: Seq<Seq<char>>)
    requires
        forall|i: int| 0 <= i < parts.len() ==> is_one_line(#[trigger] parts[i]),
    ensures
        lines(with_line_feeds(parts)) == parts,
    decreases parts.len(),
{
    if parts.len() == 0 {
        assert(lines(with_line_feeds(parts)) =~= parts);
    } else {
        let first = parts[0];
        let rest = with_line_feeds(parts.skip(1));
        let all = with_line_feeds(parts);
        assert(all =~= first + seq!['\n'] + rest);
        lemma_line(first, rest, all);
        assert forall|i: int| 0 <= i < parts.skip(1).len() implies is_one_line(
            #[trigger] parts.skip(1)[i],
        ) by {
            assert(parts.skip(1)[i] == parts[i + 1]);
        }
        law_lines_read_back(parts.skip(1));
        assert(seq![first] + parts.skip(1) =~= parts);
    }
}

proof fn lemma_line(first: Seq<char>, rest: Seq<char>, all: Seq<char>)
    requires
        is_one_line(first),
        all == first + seq!['\n'] + rest,
    ensures
        lines(all) == seq![first] + lines(rest),
{
    let n = first.len() as int;
    lemma_find_from(all, seq!['\n'], 0);
    let feed = seq!['\n'];
    assert(all.subrange(n, n + 1) =~= feed);
    assert(occurs_at(all, feed, n));
    assert forall|k: int| 0 <= k < n implies !#[trigger] occurs_at(all, feed, k) by {
        assert(all[k] == first[k]);
        if occurs_at(all, feed, k) {
            assert(all.subrange(k, k + 1)[0] == all[k]);
        }
    }
    assert(find(all, feed) == Some(n));
    assert(all.take(n) =~= first);
    assert(all.skip(n + 1) =~= rest);
    if n > 0 {
        assert(first[n - 1] != '\r');
    }
    assert(without_return(first) == first);
}

/// A last line needs no line feed, and a carriage return before a line feed belongs to the
/// line break.
pub proof fn law_line_breaks(first: Seq<char>, rest: Seq<char>)
    requires
        is_one_line(first),
    ensures
        first.len() > 0 ==> lines(first) == seq![first],
        lines(first + seq!['\n'] + rest) == seq![first] + lines(rest),
        lines(first + seq!['\r', '\n'] + rest) == seq![first] + lines(rest),
{
    lemma_line(first, rest, first + seq!['\n'] + rest);
    let feed = seq!['\n'];
    if first.len() > 0 {
        lemma_find_from(first, feed, 0);
        if let Some(i) = find(first, feed) {
            assert(first.subrange(i, i + 1)[0] == first[i]);
        }
    }
    let all = first + seq!['\r', '\n'] + rest;
    let n = first.len() as int;
    lemma_find_from(all, feed, 0);
    assert(all.subrange(n + 1, n + 2) =~= feed);
    assert(occurs_at(all, feed, n + 1));
    assert forall|k: int| 0 <= k < n + 1 implies !#[trigger] occurs_at(all, feed, k) by {
        if occurs_at(all, feed, k) {
            assert(all.subrange(k, k + 1)[0] == all[k]);
            if k < n {
                assert(all[k] == first[k]);
            }
        }
    }
    assert(find(all, feed) == Some(n + 1));
    assert(all.take(n + 1) =~= first.push('\r'));
    assert(first.push('\r').drop_last() =~= first);
    assert(all.skip(n + 2) =~= rest);
}

/// Whether two texts agree before `k`.
pub open spec fn agree_before(a: Seq<char>, b: Seq<char>, k: int) -> bool {
    &&& 0 <= k <= a.len() && k <= b.len()
    &&& forall|i: int| 0 <= i < k ==> #[trigger] a[i] == b[i]
}

/// Texts are compared as in a dictionary: at the first place where they differ, the one with
/// the smaller character comes first, and a text comes before those that it begins.
pub proof fn law_texts_are_in_dictionary_order(a: Seq<char>, b: Seq<char>, k: int)
    requires
        agree_before(a, b, k),
        k == a.len() || k == b.len() || a[k] != b[k],
    ensures
        text_le(a, b) <==> k == a.len() || k < b.len() && a[k] < b[k],
    decreases k,
{
    if k > 0 {
        assert(a[0] == b[0]);
        let (x, y) = (a.skip(1), b.skip(1));
        assert forall|i: int| 0 <= i < k - 1 implies #[trigger] x[i] == y[i] by {
            assert(a[i + 1] == b[i + 1]);
        }
        law_texts_are_in_dictionary_order(x, y, k - 1);
        if k < a.len() {
            assert(x[k - 1] == a[k]);
        }
        if k < b.len() {
            assert(y[k - 1] == b[k]);
        }
    }
}

/// A number is written in digits that give it back, with a minus sign exactly if it is
/// negative, and reads back as itself.
pub proof fn law_numbers_read_back(n: int)
    ensures
        ({
            let text = signed_decimal(n);
            let digits = if n < 0 {
                text.skip(1)
            } else {
                text
            };
            &&& n < 0 ==> text[0] == '-'
            &&& digits.len() > 0
            &&& forall|i: int| 0 <= i < digits.len() ==> is_digit(#[trigger] digits[i])
            &&& digits_value(digits) == if n < 0 {
                -n
            } else {
                n
            }
            &&& digits.len() > 1 ==> digits[0] != '0'
        }),
        0 <= n <= u32::MAX ==> parsed_u32(decimal(n as nat)) == Some(n as u32),
{
    let m = if n < 0 {
        -n
    } else {
        n
    };
    lemma_decimal_reads_back(m as nat);
    lemma_no_leading_zero(m as nat);
    if n < 0 {
        assert(signed_decimal(n).skip(1) =~= decimal(m as nat));
    }
    let d = decimal(m as nat);
    assert(is_digit(d[0]));
}

proof fn lemma_no_leading_zero(n: nat)
    ensures
        decimal(n).len() > 0,
        n > 0 ==> decimal(n)[0] != '0',
        n < 10 ==> decimal(n).len() == 1,
    decreases n,
{
    if n >= 10 {
        lemma_no_leading_zero(n / 10);
    } else if n > 0 {
        assert(decimal(n)[0] == crate::text::digit_char(n as int));
    }
}

/// White space by its code points: tab to carriage return, space, next line, and the spaces
/// and separators of Unicode.
pub proof fn law_what_white_space_is(c: char)
    ensures
        is_space(c) <==> {
            let code = c as int;
            ||| 9 <= code <= 13 || code == 32 || code == 133 || code == 160
            ||| code == 5760 || 8192 <= code <= 8202 || code == 8232 || code == 8233
            ||| code == 8239 || code == 8287 || code == 12288
        },
{
}

/// Digits are worth their place in the row of ten, and each place to the left ten times as
/// much.
pub proof fn law_what_digits_are_worth(digits: Seq<char>, c: char)
    ensures
        is_digit(c) <==> 48 <= c as int <= 57,
        is_digit(c) ==> digits_value(digits.push(c)) == 10 * digits_value(digits) + (c as int - 48),
        digits_value(Seq::<char>::empty()) == 0,
{
    assert(digits.push(c).drop_last() =~= digits);
}

/// A text is read as a number exactly if it is made of at least one digit and nothing else,
/// apart from one plus sign before them, and the number fits.
pub proof fn law_which_texts_are_numbers(digits: Seq<char>)
    requires
        digits.len() > 0,
        digits[0] != '+',
    ensures
        parsed_u32(seq!['+'] + digits) == parsed_u32(digits),
        match parsed_u32(digits) {
            Some(n) => digits_value(digits) == n && forall|i: int|
                0 <= i < digits.len() ==> 48 <= (#[trigger] digits[i]) as int <= 57,
            None => digits_value(digits) > u32::MAX || exists|i: int|
                0 <= i < digits.len() && !(48 <= (#[trigger] digits[i]) as int <= 57),
        },
        parsed_u32(Seq::<char>::empty()) is None,
        parsed_u32(seq!['+']) is None,
{
    assert((seq!['+'] + digits).skip(1) =~= digits);
}

/// The value of one hexadecimal digit.
pub open spec fn hex_worth(c: char) -> int {
    if '0' <= c <= '9' {
        c as int - 48
    } else {
        c as int - 87
    }
}

/// Whether `c` is one of `0` to `9` and `a` to `f`.
pub open spec fn is_hex_digit(c: char) -> bool {
    '0' <= c <= '9' || 'a' <= c <= 'f'
}

/// The number that hexadecimal digits write.
pub open spec fn hex_value(digits: Seq<char>) -> int
    decreases digits.len(),
{
    if digits.len() == 0 {
        0
    } else {
        16 * hex_value(digits.drop_last()) + hex_worth(digits.last())
    }
}

/// The hexadecimal form of a number is made of lower-case digits that write that number, and
/// has no leading zeros.
pub proof fn law_hexadecimal_reads_back(n: nat)
    ensures
        hexadecimal(n).len() > 0,
        hex_value(hexadecimal(n)) == n,
        forall|i: int| 0 <= i < hexadecimal(n).len() ==> is_hex_digit(#[trigger] hexadecimal(n)[i]),
        n > 0 ==> hexadecimal(n)[0] != '0',
    decreases n,
{
    if n < 16 {
        assert(hexadecimal(n).drop_last() =~= Seq::<char>::empty());
        assert(hexadecimal(n).last() == hex_char(n as int));
        assert(hex_value(Seq::<char>::empty()) == 0);
    } else {
        law_hexadecimal_reads_back(n / 16);
        let front = hexadecimal(n / 16);
        assert(hexadecimal(n).drop_last() =~= front);
        assert(hexadecimal(n).last() == hex_char((n % 16) as int));
        assert forall|i: int| 0 <= i < hexadecimal(n).len() implies is_hex_digit(
            #[trigger] hexadecimal(n)[i],
        ) by {
            if i < front.len() {
                assert(hexadecimal(n)[i] == front[i]);
            }
        }
    }
}

} // verus!
