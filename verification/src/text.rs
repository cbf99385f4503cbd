//! Text: searching, trimming, splitting and numbers, over sequences of characters.

use vstd::prelude::*;

verus! {

/// Characters with the Unicode `White_Space` property.
pub open spec fn is_space(c: char) -> bool {
    ||| '\u{9}' <= c <= '\u{d}'
    ||| c == ' '
    ||| c == '\u{85}'
    ||| c == '\u{a0}'
    ||| c == '\u{1680}'
    ||| '\u{2000}' <= c <= '\u{200a}'
    ||| c == '\u{2028}'
    ||| c == '\u{2029}'
    ||| c == '\u{202f}'
    ||| c == '\u{205f}'
    ||| c == '\u{3000}'
}

/// `s` without its leading white space.
pub open spec fn trim_start(s: Seq<char>) -> Seq<char>
    decreases s.len(),
{
    if s.len() > 0 && is_space(s[0]) {
        trim_start(s.skip(1))
    } else {
        s
    }
}

/// `s` without its trailing white space.
pub open spec fn trim_end(s: Seq<char>) -> Seq<char>
    decreases s.len(),
{
    if s.len() > 0 && is_space(s.last()) {
        trim_end(s.drop_last())
    } else {
        s
    }
}

/// `s` without the white space around it.
pub open spec fn trim(s: Seq<char>) -> Seq<char> {
    trim_end(trim_start(s))
}

/// What follows `prefix` in `s`, if `s` starts with it.
pub open spec fn after_prefix(s: Seq<char>, prefix: Seq<char>) -> Option<Seq<char>> {
    if prefix.is_prefix_of(s) {
        Some(s.skip(prefix.len() as int))
    } else {
        None
    }
}

/// Whether `part` stands in `s` at position `i`.
pub open spec fn occurs_at(s: Seq<char>, part: Seq<char>, i: int) -> bool {
    0 <= i && i + part.len() <= s.len() && s.subrange(i, i + part.len()) == part
}

/// The first position at or after `from` where `part` stands in `s`.
pub open spec fn find_from(s: Seq<char>, part: Seq<char>, from: int) -> Option<int>
    decreases s.len() + 1 - from,
{
    if from < 0 || from + part.len() > s.len() {
        None
    } else if occurs_at(s, part, from) {
        Some(from)
    } else {
        find_from(s, part, from + 1)
    }
}

/// The first position where `part` stands in `s`.
pub open spec fn find(s: Seq<char>, part: Seq<char>) -> Option<int> {
    find_from(s, part, 0)
}

/// A line without the carriage return that belongs to its line break.
pub open spec fn without_return(line: Seq<char>) -> Seq<char> {
    if line.len() > 0 && line.last() == '\r' {
        line.drop_last()
    } else {
        line
    }
}

/// The lines of `s`: what stands before each line feed, with a carriage return
/// directly before it taken off, and a last line that no line feed ends.
pub open spec fn lines(s: Seq<char>) -> Seq<Seq<char>>
    decreases s.len(),
{
    if s.len() == 0 {
        Seq::empty()
    } else {
        match find(s, seq!['\n']) {
            Some(i) => if 0 <= i < s.len() {
                seq![without_return(s.take(i))] + lines(s.skip(i + 1))
            } else {
                Seq::empty()
            },
            None => seq![s],
        }
    }
}

/// The order of the characters at the first place where two texts differ; a
/// proper prefix comes first.
pub open spec fn text_le(a: Seq<char>, b: Seq<char>) -> bool
    decreases a.len(),
{
    if a.len() == 0 {
        true
    } else if b.len() == 0 {
        false
    } else if a[0] != b[0] {
        a[0] < b[0]
    } else {
        text_le(a.skip(1), b.skip(1))
    }
}

pub open spec fn digit_char(d: int) -> char {
    ('0' as int + d) as char
}

/// The decimal digits of `n`, without leading zeros.
pub open spec fn decimal(n: nat) -> Seq<char>
    decreases n,
{
    if n < 10 {
        seq![digit_char(n as int)]
    } else {
        decimal(n / 10).push(digit_char((n % 10) as int))
    }
}

/// The decimal form of an integer, with a minus sign where it is negative.
pub open spec fn signed_decimal(n: int) -> Seq<char> {
    if n < 0 {
        seq!['-'] + decimal((-n) as nat)
    } else {
        decimal(n as nat)
    }
}

pub open spec fn is_digit(c: char) -> bool {
    '0' <= c <= '9'
}

pub open spec fn all_digits(s: Seq<char>) -> bool {
    forall|i: int| 0 <= i < s.len() ==> is_digit(#[trigger] s[i])
}

/// The number that a sequence of decimal digits writes.
pub open spec fn digits_value(s: Seq<char>) -> nat
    decreases s.len(),
{
    if s.len() == 0 {
        0
    } else {
        (10 * digits_value(s.drop_last()) + (s.last() as int - '0' as int)) as nat
    }
}

/// What follows an optional plus sign.
pub open spec fn unsigned_digits(s: Seq<char>) -> Seq<char> {
    if s.len() > 0 && s[0] == '+' {
        s.skip(1)
    } else {
        s
    }
}

/// The 32-bit number that `s` writes in decimal: at least one digit and nothing
/// but digits after an optional plus sign, and not too large.
pub open spec fn parsed_u32(s: Seq<char>) -> Option<u32> {
    let d = unsigned_digits(s);
    if d.len() > 0 && all_digits(d) && digits_value(d) <= u32::MAX {
        Some(digits_value(d) as u32)
    } else {
        None
    }
}

pub open spec fn hex_char(d: int) -> char {
    if d < 10 {
        digit_char(d)
    } else {
        ('a' as int + (d - 10)) as char
    }
}

/// The lower-case hexadecimal digits of `n`, without leading zeros.
pub open spec fn hexadecimal(n: nat) -> Seq<char>
    decreases n,
{
    if n < 16 {
        seq![hex_char(n as int)]
    } else {
        hexadecimal(n / 16).push(hex_char((n % 16) as int))
    }
}

pub fn whitespace(c: char) -> (space: bool)
    ensures
        space == is_space(c),
{
    ('\u{9}' <= c && c <= '\u{d}') || c == ' ' || c == '\u{85}' || c == '\u{a0}' || c == '\u{1680}'
        || ('\u{2000}' <= c && c <= '\u{200a}') || c == '\u{2028}' || c == '\u{2029}' || c
        == '\u{202f}' || c == '\u{205f}' || c == '\u{3000}'
}

/// `String::push` of the standard library: the given character becomes the last
/// one of the string.
pub assume_specification[ String::push ](s: &mut String, c: char)
    ensures
        final(s)@ == old(s)@.push(c),
;

/// The characters of a string slice.
pub fn chars_of(s: &str) -> (chars: Vec<char>)
    ensures
        chars@ == s@,
{
    let mut chars: Vec<char> = Vec::new();
    for c in it: s.chars()
        invariant
            chars@ == it.seq().take(it.index() as int),
    {
        chars.push(c);
    }
    chars
}

/// The string made of the given characters.
pub fn text_of(chars: &Vec<char>) -> (s: String)
    ensures
        s@ == chars@,
{
    let mut s: String = String::new();
    let mut i: usize = 0;
    while i < chars.len()
        invariant
            i <= chars@.len(),
            s@ == chars@.take(i as int),
        decreases chars@.len() - i,
    {
        s.push(chars[i]);
        i += 1;
    }
    s
}

/// Whether two string slices hold the same text.
pub fn same_text(a: &str, b: &str) -> (same: bool)
    ensures
        same == (a@ == b@),
{
    a.to_owned() == b.to_owned()
}

/// A part of a character sequence.
pub fn part_of(chars: &Vec<char>, from: usize, to: usize) -> (part: Vec<char>)
    requires
        from <= to <= chars@.len(),
    ensures
        part@ == chars@.subrange(from as int, to as int),
{
    let mut part: Vec<char> = Vec::new();
    let mut i: usize = from;
    while i < to
        invariant
            from <= i <= to <= chars@.len(),
            part@ == chars@.subrange(from as int, i as int),
        decreases to - i,
    {
        part.push(chars[i]);
        i += 1;
    }
    part
}

pub fn trimmed_start(chars: &Vec<char>) -> (rest: Vec<char>)
    ensures
        rest@ == trim_start(chars@),
{
    let mut i: usize = 0;
    assert(chars@.skip(0) == chars@);
    while i < chars.len() && whitespace(chars[i])
        invariant
            i <= chars@.len(),
            trim_start(chars@) == trim_start(chars@.skip(i as int)),
        decreases chars@.len() - i,
    {
        assert(chars@.skip(i as int).skip(1) == chars@.skip(i + 1));
        i += 1;
    }
    part_of(chars, i, chars.len())
}

fn trimmed_end(chars: &Vec<char>) -> (rest: Vec<char>)
    ensures
        rest@ == trim_end(chars@),
{
    let mut n: usize = chars.len();
    assert(chars@.take(n as int) == chars@);
    while n > 0 && whitespace(chars[n - 1])
        invariant
            n <= chars@.len(),
            trim_end(chars@) == trim_end(chars@.take(n as int)),
        decreases n,
    {
        assert(chars@.take(n as int).drop_last() == chars@.take(n - 1));
        n -= 1;
    }
    part_of(chars, 0, n)
}

pub fn trimmed(chars: &Vec<char>) -> (rest: Vec<char>)
    ensures
        rest@ == trim(chars@),
{
    let start = trimmed_start(chars);
    trimmed_end(&start)
}

/// Whether `part` stands in `chars` at position `i`.
pub fn stands_at(chars: &Vec<char>, part: &Vec<char>, i: usize) -> (yes: bool)
    ensures
        yes == occurs_at(chars@, part@, i as int),
{
    if i > chars.len() || part.len() > chars.len() - i {
        return false;
    }
    let mut j: usize = 0;
    while j < part.len()
        invariant
            j <= part@.len(),
            i + part.len() <= chars.len(),
            forall|k: int| 0 <= k < j ==> chars@[i + k] == part@[k],
        decreases part@.len() - j,
    {
        if chars[i + j] != part[j] {
            proof {
                assert(chars@.subrange(i as int, i + part@.len())[j as int] != part@[j as int]);
            }
            return false;
        }
        j += 1;
    }
    assert(chars@.subrange(i as int, i + part@.len()) =~= part@);
    true
}

/// What follows `prefix`, if the characters start with it.
pub fn strip_prefix(chars: &Vec<char>, prefix: &str) -> (rest: Option<Vec<char>>)
    ensures
        match rest {
            Some(r) => after_prefix(chars@, prefix@) == Some(r@),
            None => after_prefix(chars@, prefix@) is None,
        },
{
    let p = chars_of(prefix);
    if stands_at(chars, &p, 0) {
        assert(chars@.subrange(0, p@.len() as int) == chars@.take(p@.len() as int));
        assert(p@.is_prefix_of(chars@));
        let rest = part_of(chars, p.len(), chars.len());
        assert(rest@ == chars@.skip(p@.len() as int));
        Some(rest)
    } else {
        proof {
            if p@.is_prefix_of(chars@) {
                assert(chars@.subrange(0, p@.len() as int) == p@);
            }
        }
        None
    }
}

pub fn starts_with(text: &str, prefix: &str) -> (yes: bool)
    ensures
        yes == prefix@.is_prefix_of(text@),
{
    let chars = chars_of(text);
    strip_prefix(&chars, prefix).is_some()
}

/// The first position where `part` stands in `chars`.
pub fn position_of(chars: &Vec<char>, part: &Vec<char>) -> (found: Option<usize>)
    ensures
        match found {
            Some(i) => find(chars@, part@) == Some(i as int),
            None => find(chars@, part@) is None,
        },
{
    let mut i: usize = 0;
    while i <= chars.len() && part.len() <= chars.len() - i
        invariant
            i <= chars@.len() + 1,
            find(chars@, part@) == find_from(chars@, part@, i as int),
        decreases chars@.len() + 1 - i,
    {
        if stands_at(chars, part, i) {
            return Some(i);
        }
        if i == chars.len() {
            proof {
                assert(find_from(chars@, part@, i + 1) is None);
            }
            return None;
        }
        i += 1;
    }
    None
}

/// Whether `part` stands anywhere in `text`.
pub fn contains_text(text: &str, part: &str) -> (yes: bool)
    ensures
        yes == (find(text@, part@) is Some),
{
    let chars = chars_of(text);
    let wanted = chars_of(part);
    position_of(&chars, &wanted).is_some()
}

/// That a found position is one where the part stands, and that it stands nowhere
/// before it.
pub proof fn lemma_find_from(s: Seq<char>, part: Seq<char>, from: int)
    requires
        0 <= from,
    ensures
        match find_from(s, part, from) {
            Some(i) => from <= i && occurs_at(s, part, i) && forall|k: int|
                from <= k < i ==> !occurs_at(s, part, k),
            None => forall|k: int| from <= k ==> !occurs_at(s, part, k),
        },
    decreases s.len() + 1 - from,
{
    if from + part.len() <= s.len() && !occurs_at(s, part, from) {
        lemma_find_from(s, part, from + 1);
    }
}

/// The lines of a text.
pub fn split_lines(chars: &Vec<char>) -> (found: Vec<Vec<char>>)
    ensures
        found@.map_values(|l: Vec<char>| l@) == lines(chars@),
{
    let mut found: Vec<Vec<char>> = Vec::new();
    let mut start: usize = 0;
    let mut i: usize = 0;
    let ghost view = |l: Vec<char>| l@;
    assert(chars@.skip(0) == chars@);
    assert(found@.map_values(view) + lines(chars@) == lines(chars@));
    while i < chars.len()
        invariant
            start <= i <= chars@.len(),
            view == (|l: Vec<char>| l@),
            found@.map_values(view) + lines(chars@.skip(start as int)) == lines(chars@),
            forall|k: int| start <= k < i ==> chars@[k] != '\n',
        decreases chars@.len() - i,
    {
        if chars[i] == '\n' {
            let end: usize = if i > start && chars[i - 1] == '\r' {
                i - 1
            } else {
                i
            };
            let line = part_of(chars, start, end);
            proof {
                let rest = chars@.skip(start as int);
                let feed = seq!['\n'];
                let at = i - start;
                lemma_find_from(rest, feed, 0);
                assert(rest.subrange(at, at + 1) =~= feed);
                assert(occurs_at(rest, feed, at));
                assert forall|k: int| 0 <= k < at implies !occurs_at(rest, feed, k) by {
                    if occurs_at(rest, feed, k) {
                        assert(rest.subrange(k, k + 1)[0] == feed[0]);
                        assert(chars@[start + k] != '\n');
                    }
                }
                assert(find(rest, feed) == Some(at));
                assert(rest.take(at) == chars@.subrange(start as int, i as int));
                assert(line@ =~= without_return(rest.take(at)));
                assert(rest.skip(at + 1) == chars@.skip(i + 1));
                assert(lines(rest) == seq![line@] + lines(chars@.skip(i + 1)));
                assert(found@.push(line).map_values(view) =~= found@.map_values(view).push(line@));
                assert(found@.map_values(view) + (seq![line@] + lines(chars@.skip(i + 1)))
                    =~= found@.map_values(view).push(line@) + lines(chars@.skip(i + 1)));
            }
            found.push(line);
            start = i + 1;
        }
        i += 1;
    }
    if start < chars.len() {
        let line = part_of(chars, start, chars.len());
        proof {
            let rest = chars@.skip(start as int);
            let feed = seq!['\n'];
            lemma_find_from(rest, feed, 0);
            assert forall|k: int| 0 <= k implies !occurs_at(rest, feed, k) by {
                if occurs_at(rest, feed, k) {
                    assert(rest.subrange(k, k + 1)[0] == feed[0]);
                    assert(chars@[start + k] != '\n');
                }
            }
            assert(find(rest, feed) is None);
            assert(line@ =~= rest);
            assert(found@.push(line).map_values(view) =~= found@.map_values(view).push(line@));
        }
        found.push(line);
    } else {
        assert(chars@.skip(start as int).len() == 0);
    }
    found
}

/// Whether `a` comes before `b` or equals it. This is the order of `str`, whose
/// bytes order as its characters do.
pub fn text_at_most(a: &Vec<char>, b: &Vec<char>) -> (le: bool)
    ensures
        le == text_le(a@, b@),
{
    let mut i: usize = 0;
    assert(a@.skip(0) == a@);
    assert(b@.skip(0) == b@);
    while i < a.len() && i < b.len()
        invariant
            i <= a@.len(),
            i <= b@.len(),
            text_le(a@, b@) == text_le(a@.skip(i as int), b@.skip(i as int)),
        decreases a@.len() - i,
    {
        if a[i] != b[i] {
            return a[i] < b[i];
        }
        assert(a@.skip(i as int).skip(1) == a@.skip(i + 1));
        assert(b@.skip(i as int).skip(1) == b@.skip(i + 1));
        i += 1;
    }
    i >= a.len()
}

/// Two texts that come before each other are the same.
pub proof fn lemma_text_le_antisymmetric(a: Seq<char>, b: Seq<char>)
    requires
        text_le(a, b),
        text_le(b, a),
    ensures
        a == b,
    decreases a.len(),
{
    if a.len() == 0 {
        assert(b.len() == 0);
        assert(a =~= b);
    } else {
        lemma_text_le_antisymmetric(a.skip(1), b.skip(1));
        assert(a =~= seq![a[0]] + a.skip(1));
        assert(b =~= seq![b[0]] + b.skip(1));
    }
}

/// Of two texts one comes before the other or equals it.
pub proof fn lemma_text_le_total(a: Seq<char>, b: Seq<char>)
    ensures
        text_le(a, b) || text_le(b, a),
    decreases a.len(),
{
    if a.len() > 0 && b.len() > 0 {
        lemma_text_le_total(a.skip(1), b.skip(1));
    }
}

pub proof fn lemma_text_le_transitive(a: Seq<char>, b: Seq<char>, c: Seq<char>)
    requires
        text_le(a, b),
        text_le(b, c),
    ensures
        text_le(a, c),
    decreases a.len(),
{
    if a.len() > 0 && a[0] == b[0] && b[0] == c[0] {
        lemma_text_le_transitive(a.skip(1), b.skip(1), c.skip(1));
    }
}

fn digit_of(d: u8) -> (c: char)
    requires
        d < 10,
    ensures
        c == digit_char(d as int),
{
    match d {
        0 => '0',
        1 => '1',
        2 => '2',
        3 => '3',
        4 => '4',
        5 => '5',
        6 => '6',
        7 => '7',
        8 => '8',
        _ => '9',
    }
}

/// Appends the decimal digits of `n`.
pub fn push_decimal(s: &mut String, n: u64)
    ensures
        final(s)@ == old(s)@ + decimal(n as nat),
    decreases n,
{
    if n >= 10 {
        push_decimal(s, n / 10);
    }
    let ghost before = s@;
    s.push(digit_of((n % 10) as u8));
    assert(s@ =~= old(s)@ + decimal(n as nat));
}

/// Appends an integer in decimal.
pub fn push_signed(s: &mut String, n: i32)
    ensures
        final(s)@ == old(s)@ + signed_decimal(n as int),
{
    if n < 0 {
        s.push('-');
        push_decimal(s, (0 - (n as i64)) as u64);
        assert(s@ =~= old(s)@ + signed_decimal(n as int));
    } else {
        push_decimal(s, n as u64);
    }
}

/// `prefix` followed by the decimal digits of `n`.
pub fn with_number(prefix: &str, n: u64) -> (s: String)
    ensures
        s@ == prefix@ + decimal(n as nat),
{
    let mut s = prefix.to_owned();
    push_decimal(&mut s, n);
    s
}

/// `prefix` followed by an integer in decimal.
pub fn with_signed(prefix: &str, n: i32) -> (s: String)
    ensures
        s@ == prefix@ + signed_decimal(n as int),
{
    let mut s = prefix.to_owned();
    push_signed(&mut s, n);
    s
}

proof fn lemma_digits_value_prefix(s: Seq<char>, k: int)
    requires
        0 <= k <= s.len(),
        all_digits(s),
    ensures
        digits_value(s.take(k)) <= digits_value(s),
    decreases s.len() - k,
{
    if k < s.len() {
        lemma_digits_value_prefix(s, k + 1);
        assert(s.take(k + 1).drop_last() == s.take(k));
        assert(is_digit(s[k]));
        assert(s.take(k + 1).last() == s[k]);
    } else {
        assert(s.take(k) == s);
    }
}

/// The number that the characters write, as `str::parse::<u32>` reads it.
pub fn parse_u32(chars: &Vec<char>) -> (n: Option<u32>)
    ensures
        n == parsed_u32(chars@),
{
    let from: usize = if chars.len() > 0 && chars[0] == '+' {
        1
    } else {
        0
    };
    let ghost d = unsigned_digits(chars@);
    assert(d =~= chars@.skip(from as int));
    if from == chars.len() {
        return None;
    }
    let mut value: u64 = 0;
    let mut i: usize = from;
    assert(d.take(0) =~= Seq::<char>::empty());
    while i < chars.len()
        invariant
            from <= i <= chars@.len(),
            d == chars@.skip(from as int),
            d == unsigned_digits(chars@),
            forall|k: int| from <= k < i ==> is_digit(#[trigger] chars@[k]),
            value == digits_value(d.take(i - from)),
            value <= u32::MAX,
        decreases chars@.len() - i,
    {
        let c: char = chars[i];
        if c < '0' || c > '9' {
            proof {
                assert(!is_digit(d[i - from]));
            }
            return None;
        }
        proof {
            assert(d.take(i + 1 - from).drop_last() == d.take(i - from));
            assert(d.take(i + 1 - from).last() == c);
        }
        value = 10 * value + (c as u64 - '0' as u64);
        i += 1;
        if value > u32::MAX as u64 {
            proof {
                if all_digits(d) {
                    lemma_digits_value_prefix(d, i - from);
                }
            }
            return None;
        }
    }
    proof {
        assert(d.take(d.len() as int) == d);
        assert forall|k: int| 0 <= k < d.len() implies is_digit(#[trigger] d[k]) by {
            assert(is_digit(chars@[k + from]));
        }
    }
    Some(value as u32)
}

/// The digits of a number are digits, there is at least one, and they write that
/// number.
pub proof fn lemma_decimal_reads_back(n: nat)
    ensures
        decimal(n).len() > 0,
        all_digits(decimal(n)),
        digits_value(decimal(n)) == n,
    decreases n,
{
    if n < 10 {
        let s = decimal(n);
        assert(s.drop_last() =~= Seq::<char>::empty());
        assert(s.last() as int == '0' as int + n);
        assert(digits_value(s.drop_last()) == 0);
    } else {
        lemma_decimal_reads_back(n / 10);
        let s = decimal(n);
        assert(s.drop_last() =~= decimal(n / 10));
        assert(s.last() as int == '0' as int + n % 10);
        assert forall|i: int| 0 <= i < s.len() implies is_digit(#[trigger] s[i]) by {
            if i < s.len() - 1 {
                assert(s[i] == decimal(n / 10)[i]);
            }
        }
    }
}

fn hex_of(d: u8) -> (c: char)
    requires
        d < 16,
    ensures
        c == hex_char(d as int),
{
    match d {
        10 => 'a',
        11 => 'b',
        12 => 'c',
        13 => 'd',
        14 => 'e',
        15 => 'f',
        _ => digit_of(d),
    }
}

/// Appends the lower-case hexadecimal digits of `n`.
pub fn push_hexadecimal(s: &mut String, n: u128)
    ensures
        final(s)@ == old(s)@ + hexadecimal(n as nat),
    decreases n,
{
    if n >= 16 {
        push_hexadecimal(s, n / 16);
    }
    s.push(hex_of((n % 16) as u8));
    assert(s@ =~= old(s)@ + hexadecimal(n as nat));
}

} // verus!
