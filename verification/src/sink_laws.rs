//! What each part of a sink input is read from, and from nothing else.

use vstd::prelude::*;

use crate::level::Level;
use crate::linux::{
    block_of, char_views, completed, first_percentage, header_id, is_number_char,
    is_percentage_at, number_suffix, percentage_from, property, sink_inputs, sink_of, sink_session,
    sink_views, sinks_in, BlockView, SinkInput, SinkView,
};
use crate::linux_laws::header_ids;
use crate::session::{clamped_volume, opt_text};
use crate::text::{after_prefix, lines, trim, trim_start};

verus! {

/// What a line says under a label, if it starts with it: the rest without the white space
/// around it.
pub open spec fn says(line: Seq<char>, label: Seq<char>) -> Option<Seq<char>> {
    match after_prefix(trim(line), label) {
        Some(rest) => Some(trim(rest)),
        None => None,
    }
}

/// Whether the properties of a sink input begin with the line at `n`, or it has none and `n`
/// is the number of its lines.
pub open spec fn properties_begin(lines: Seq<Seq<char>>, n: int) -> bool {
    &&& 0 <= n <= lines.len()
    &&& forall|k: int| 0 <= k < n ==> says(#[trigger] lines[k], "Properties:"@) is None
    &&& n < lines.len() ==> says(lines[n], "Properties:"@) is Some
}

/// Whether the line at `k` is the last before `n` with a label.
pub open spec fn is_last_with(lines: Seq<Seq<char>>, n: int, k: int, label: Seq<char>) -> bool {
    &&& 0 <= k < n
    &&& says(lines[k], label) is Some
    &&& forall|j: int| k < j < n ==> says(#[trigger] lines[j], label) is None
}

/// Whether no line before `n` has a label.
pub open spec fn none_with(lines: Seq<Seq<char>>, n: int, label: Seq<char>) -> bool {
    forall|j: int| 0 <= j < n ==> says(#[trigger] lines[j], label) is None
}

proof fn lemma_labels_differ(text: Seq<char>)
    ensures
        after_prefix(text, "Mute:"@) is Some ==> after_prefix(text, "Volume:"@) is None
            && after_prefix(text, "Corked:"@) is None && after_prefix(text, "Properties:"@) is None,
        after_prefix(text, "Corked:"@) is Some ==> after_prefix(text, "Volume:"@) is None
            && after_prefix(text, "Properties:"@) is None,
        after_prefix(text, "Volume:"@) is Some ==> after_prefix(text, "Properties:"@) is None,
        "Properties:"@.is_prefix_of(text) <==> after_prefix(text, "Properties:"@) is Some,
{
    reveal_strlit("Mute:");
    reveal_strlit("Volume:");
    reveal_strlit("Corked:");
    reveal_strlit("Properties:");
    if after_prefix(text, "Mute:"@) is Some {
        assert(text[0] == "Mute:"@[0]);
    }
    if after_prefix(text, "Volume:"@) is Some {
        assert(text[0] == "Volume:"@[0]);
    }
    if after_prefix(text, "Corked:"@) is Some {
        assert(text[0] == "Corked:"@[0]);
    }
    if after_prefix(text, "Properties:"@) is Some {
        assert(text[0] == "Properties:"@[0]);
    }
}

/// Lines before the properties leave the sink input before them.
proof fn lemma_before_properties(lines: Seq<Seq<char>>)
    requires
        none_with(lines, lines.len() as int, "Properties:"@),
    ensures
        !block_of(lines).in_properties,
        block_of(lines).properties == Map::<Seq<char>, Seq<char>>::empty(),
    decreases lines.len(),
{
    if lines.len() > 0 {
        let init = lines.drop_last();
        assert(none_with(init, init.len() as int, "Properties:"@)) by {
            assert forall|j: int| 0 <= j < init.len() implies says(
                #[trigger] init[j],
                "Properties:"@,
            ) is None by {
                assert(init[j] == lines[j]);
            }
        }
        lemma_before_properties(init);
        assert(says(lines[lines.len() - 1], "Properties:"@) is None);
        lemma_labels_differ(trim(lines.last()));
    }
}

/// Lines from the properties on change nothing but these.
proof fn lemma_after_properties(lines: Seq<Seq<char>>, n: int)
    requires
        properties_begin(lines, n),
    ensures
        block_of(lines).percent == block_of(lines.take(n)).percent,
        block_of(lines).muted == block_of(lines.take(n)).muted,
        block_of(lines).is_active == block_of(lines.take(n)).is_active,
        block_of(lines).in_properties == (n < lines.len()),
    decreases lines.len(),
{
    if n == lines.len() {
        assert(lines.take(n) =~= lines);
        lemma_before_properties(lines);
    } else {
        let init = lines.drop_last();
        assert(init.take(n) =~= lines.take(n));
        if n < init.len() {
            assert(properties_begin(init, n)) by {
                assert forall|k: int| 0 <= k < n implies says(
                    #[trigger] init[k],
                    "Properties:"@,
                ) is None by {
                    assert(init[k] == lines[k]);
                }
                assert(init[n] == lines[n]);
            }
            lemma_after_properties(init, n);
        } else {
            assert(init =~= lines.take(n));
            assert(says(lines[n], "Properties:"@) is Some);
            lemma_labels_differ(trim(lines.last()));
        }
    }
}

proof fn lemma_take_none(lines: Seq<Seq<char>>, n: int)
    requires
        properties_begin(lines, n),
    ensures
        none_with(lines.take(n), n, "Properties:"@),
{
    assert forall|j: int| 0 <= j < n implies says(
        #[trigger] lines.take(n)[j],
        "Properties:"@,
    ) is None by {
        assert(lines.take(n)[j] == lines[j]);
    }
}

proof fn lemma_muted(lines: Seq<Seq<char>>)
    requires
        none_with(lines, lines.len() as int, "Properties:"@),
    ensures
        none_with(lines, lines.len() as int, "Mute:"@) ==> !block_of(lines).muted,
        forall|k: int| #[trigger]
            is_last_with(lines, lines.len() as int, k, "Mute:"@) ==> block_of(lines).muted == (says(
                lines[k],
                "Mute:"@,
            ) == Some("yes"@)),
        none_with(lines, lines.len() as int, "Corked:"@) ==> block_of(lines).is_active,
        forall|k: int| #[trigger]
            is_last_with(lines, lines.len() as int, k, "Corked:"@) ==> block_of(lines).is_active
                == (says(lines[k], "Corked:"@) != Some("yes"@)),
    decreases lines.len(),
{
    if lines.len() > 0 {
        let n = lines.len() as int;
        let init = lines.drop_last();
        let last = lines.last();
        assert forall|j: int| 0 <= j < n - 1 implies init[j] == #[trigger] lines[j] by {}
        assert(none_with(init, n - 1, "Properties:"@)) by {
            assert forall|j: int| 0 <= j < n - 1 implies says(
                #[trigger] init[j],
                "Properties:"@,
            ) is None by {
                assert(init[j] == lines[j]);
            }
        }
        lemma_muted(init);
        lemma_before_properties(init);
        assert(says(lines[n - 1], "Properties:"@) is None);
        lemma_labels_differ(trim(last));
        lemma_label_step(lines, "Mute:"@);
        lemma_label_step(lines, "Corked:"@);
    }
}

/// How the last line with a label moves when a line is added.
proof fn lemma_label_step(lines: Seq<Seq<char>>, label: Seq<char>)
    requires
        lines.len() > 0,
    ensures
        ({
            let n = lines.len() as int;
            let init = lines.drop_last();
            &&& none_with(lines, n, label) <==> none_with(init, n - 1, label) && says(
                lines.last(),
                label,
            ) is None
            &&& forall|k: int| #[trigger]
                is_last_with(lines, n, k, label) ==> if says(lines.last(), label) is Some {
                    k == n - 1
                } else {
                    is_last_with(init, n - 1, k, label) && init[k] == lines[k]
                }
        }),
{
    let n = lines.len() as int;
    let init = lines.drop_last();
    assert forall|k: int| #[trigger] is_last_with(lines, n, k, label) implies if says(
        lines.last(),
        label,
    ) is Some {
        k == n - 1
    } else {
        is_last_with(init, n - 1, k, label) && init[k] == lines[k]
    } by {
        if says(lines.last(), label) is Some {
            if k < n - 1 {
                assert(says(lines[n - 1], label) is None);
            }
        } else {
            assert forall|j: int| k < j < n - 1 implies says(#[trigger] init[j], label) is None by {
                assert(init[j] == lines[j]);
            }
        }
    }
    if none_with(lines, n, label) {
        assert forall|j: int| 0 <= j < n - 1 implies says(#[trigger] init[j], label) is None by {
            assert(init[j] == lines[j]);
        }
        assert(says(lines[n - 1], label) is None);
    }
    if none_with(init, n - 1, label) && says(lines.last(), label) is None {
        assert forall|j: int| 0 <= j < n implies says(#[trigger] lines[j], label) is None by {
            if j < n - 1 {
                assert(init[j] == lines[j]);
            }
        }
    }
}

proof fn lemma_last_in_take(lines: Seq<Seq<char>>, n: int, label: Seq<char>)
    requires
        0 <= n <= lines.len(),
    ensures
        none_with(lines, n, label) ==> none_with(lines.take(n), n, label),
        forall|k: int| #[trigger]
            is_last_with(lines, n, k, label) ==> is_last_with(lines.take(n), n, k, label)
                && lines.take(n)[k] == lines[k],
{
    let head = lines.take(n);
    assert forall|k: int| #[trigger] is_last_with(lines, n, k, label) implies is_last_with(
        head,
        n,
        k,
        label,
    ) && head[k] == lines[k] by {
        assert forall|j: int| k < j < n implies says(#[trigger] head[j], label) is None by {
            assert(head[j] == lines[j]);
        }
    }
    if none_with(lines, n, label) {
        assert forall|j: int| 0 <= j < n implies says(#[trigger] head[j], label) is None by {
            assert(head[j] == lines[j]);
        }
    }
}

/// A sink input is muted exactly if the last line before its properties that starts with
/// `Mute:` says yes; without such a line it is not.
pub proof fn law_muted_is_what_the_mute_line_says(
    id: Seq<char>,
    lines: Seq<Seq<char>>,
    n: int,
    k: int,
)
    requires
        properties_begin(lines, n),
    ensures
        none_with(lines, n, "Mute:"@) ==> !sink_of(id, lines).muted,
        is_last_with(lines, n, k, "Mute:"@) ==> sink_of(id, lines).muted == (says(
            lines[k],
            "Mute:"@,
        ) == Some("yes"@)),
{
    lemma_after_properties(lines, n);
    lemma_take_none(lines, n);
    lemma_muted(lines.take(n));
    lemma_last_in_take(lines, n, "Mute:"@);
    if is_last_with(lines, n, k, "Mute:"@) {
        assert(is_last_with(lines.take(n), n, k, "Mute:"@));
    }
}

/// A sink input is paused exactly if the last line before its properties that starts with
/// `Corked:` says yes; without such a line it is active.
pub proof fn law_active_is_what_the_corked_line_says(
    id: Seq<char>,
    lines: Seq<Seq<char>>,
    n: int,
    k: int,
)
    requires
        properties_begin(lines, n),
    ensures
        none_with(lines, n, "Corked:"@) ==> sink_of(id, lines).is_active,
        is_last_with(lines, n, k, "Corked:"@) ==> sink_of(id, lines).is_active == (says(
            lines[k],
            "Corked:"@,
        ) != Some("yes"@)),
{
    lemma_after_properties(lines, n);
    lemma_take_none(lines, n);
    lemma_muted(lines.take(n));
    lemma_last_in_take(lines, n, "Corked:"@);
    if is_last_with(lines, n, k, "Corked:"@) {
        assert(is_last_with(lines.take(n), n, k, "Corked:"@));
    }
}

/// Whether `number` stands before the percent sign at `i`, as far to the left as digits and
/// points go, and is a number: it has a digit, and at most one point.
pub open spec fn is_percentage(s: Seq<char>, i: int, number: Seq<char>) -> bool {
    let from = i - number.len();
    &&& 0 <= from && i < s.len() && s[i] == '%'
    &&& s.subrange(from, i) == number
    &&& forall|k: int|
        0 <= k < number.len() ==> '0' <= (#[trigger] number[k]) <= '9' || number[k] == '.'
    &&& from > 0 ==> !('0' <= s[from - 1] <= '9' || s[from - 1] == '.')
    &&& exists|k: int| 0 <= k < number.len() && '0' <= (#[trigger] number[k]) <= '9'
    &&& forall|a: int, b: int|
        0 <= a < b < number.len() && #[trigger] number[a] == '.' ==> #[trigger] number[b] != '.'
}

proof fn lemma_suffix(s: Seq<char>)
    ensures
        ({
            let number = number_suffix(s);
            let from = s.len() - number.len();
            &&& 0 <= from && s.skip(from) == number
            &&& forall|k: int| 0 <= k < number.len() ==> is_number_char(#[trigger] number[k])
            &&& from > 0 ==> !is_number_char(s[from - 1])
        }),
    decreases s.len(),
{
    if s.len() > 0 && is_number_char(s.last()) {
        let init = s.drop_last();
        lemma_suffix(init);
        let number = number_suffix(s);
        let before = number_suffix(init);
        let from = s.len() - number.len();
        assert(number == before.push(s.last()));
        assert(s.skip(from) =~= number) by {
            assert(init.skip(from) == before);
            assert forall|k: int| 0 <= k < before.len() implies s[from + k] == before[k] by {
                assert(init.skip(from)[k] == init[from + k]);
            }
        }
        assert forall|k: int| 0 <= k < number.len() implies is_number_char(#[trigger] number[k]) by {
            if k < before.len() {
                assert(number[k] == before[k]);
            }
        }
    } else {
        assert(s.skip(s.len() as int) =~= Seq::<char>::empty());
    }
}

proof fn lemma_percentage_at(s: Seq<char>, i: int)
    requires
        0 <= i < s.len(),
    ensures
        is_percentage_at(s, i) ==> is_percentage(s, i, number_suffix(s.take(i))),
        forall|number: Seq<char>| #[trigger]
            is_percentage(s, i, number) ==> is_percentage_at(s, i) && number == number_suffix(
                s.take(i),
            ),
{
    let head = s.take(i);
    let own = number_suffix(head);
    lemma_suffix(head);
    let from = i - own.len();
    assert(head.skip(from) =~= s.subrange(from, i));
    if is_percentage_at(s, i) {
        let k = choose|k: int| 0 <= k < own.len() && crate::text::is_digit(#[trigger] own[k]);
        assert('0' <= own[k] <= '9');
        assert forall|k: int| 0 <= k < own.len() implies '0' <= (#[trigger] own[k]) <= '9' || own[k]
            == '.' by {
            assert(is_number_char(own[k]));
        }
    }
    assert forall|number: Seq<char>| #[trigger] is_percentage(s, i, number) implies is_percentage_at(
        s,
        i,
    ) && number == own by {
        let start = i - number.len();
        if number.len() > own.len() {
            assert(number[from - 1 - start] == s.subrange(start, i)[from - 1 - start]);
            assert(head[from - 1] == s[from - 1]);
            assert(is_number_char(head[from - 1]));
        }
        if number.len() < own.len() {
            assert(own[start - 1 - from] == s.subrange(from, i)[start - 1 - from]);
            assert(is_number_char(own[start - 1 - from]));
        }
        assert(number == own);
        let k = choose|k: int| 0 <= k < number.len() && '0' <= (#[trigger] number[k]) <= '9';
        assert(crate::text::is_digit(own[k]));
    }
}

/// Whether no percentage stands from `from` on before `to`.
pub open spec fn no_percentage(s: Seq<char>, from: int, to: int) -> bool {
    forall|j: int, other: Seq<char>| from <= j < to ==> !#[trigger] is_percentage(s, j, other)
}

/// Whether the first percentage from `from` on stands at `i`.
pub open spec fn is_first_percentage(s: Seq<char>, from: int, i: int, number: Seq<char>) -> bool {
    is_percentage(s, i, number) && no_percentage(s, from, i)
}

proof fn lemma_percentage_from(s: Seq<char>, from: int) -> (at: int)
    requires
        0 <= from,
    ensures
        percentage_from(s, from) is Some ==> is_percentage(
            s,
            at,
            percentage_from(s, from).unwrap(),
        ),
        percentage_from(s, from) is Some ==> no_percentage(s, from, at),
        percentage_from(s, from) is None ==> no_percentage(s, from, s.len() as int),
    decreases s.len() - from,
{
    if from >= s.len() {
        from
    } else {
        lemma_percentage_at(s, from);
        if is_percentage_at(s, from) {
            from
        } else {
            let at = lemma_percentage_from(s, from + 1);
            let to = if percentage_from(s, from) is Some {
                at
            } else {
                s.len() as int
            };
            assert(no_percentage(s, from + 1, to));
            assert(no_percentage(s, from, to)) by {
                assert forall|j: int, other: Seq<char>| from <= j < to implies !#[trigger] is_percentage(
                    s,
                    j,
                    other,
                ) by {
                    if j == from {
                        assert(!is_percentage(s, from, other));
                    }
                }
            }
            at
        }
    }
}

/// The first percentage is the number before the first percent sign that has one; there is
/// none exactly if no percent sign has one.
pub proof fn law_the_first_percentage_is_taken(s: Seq<char>)
    ensures
        match first_percentage(s) {
            Some(number) => exists|i: int| is_first_percentage(s, 0, i, number),
            None => no_percentage(s, 0, s.len() as int),
        },
{
    let at = lemma_percentage_from(s, 0);
    if first_percentage(s) is Some {
        assert(is_first_percentage(s, 0, at, first_percentage(s).unwrap()));
    }
}

/// The percentage that a line gives, if it is one of volumes.
pub open spec fn volume_in(line: Seq<char>) -> Option<Seq<char>> {
    match after_prefix(trim(line), "Volume:"@) {
        Some(rest) => first_percentage(rest),
        None => None,
    }
}

proof fn lemma_percent(lines: Seq<Seq<char>>, k: int)
    requires
        none_with(lines, lines.len() as int, "Properties:"@),
    ensures
        (forall|j: int| 0 <= j < lines.len() ==> volume_in(#[trigger] lines[j]) is None)
            ==> block_of(lines).percent is None,
        0 <= k < lines.len() && volume_in(lines[k]) is Some && (forall|j: int|
            k < j < lines.len() ==> volume_in(#[trigger] lines[j]) is None) ==> block_of(
            lines,
        ).percent == volume_in(lines[k]),
    decreases lines.len(),
{
    if lines.len() > 0 {
        let n = lines.len() as int;
        let init = lines.drop_last();
        assert(none_with(init, n - 1, "Properties:"@)) by {
            assert forall|j: int| 0 <= j < n - 1 implies says(
                #[trigger] init[j],
                "Properties:"@,
            ) is None by {
                assert(init[j] == lines[j]);
            }
        }
        lemma_percent(init, k);
        lemma_before_properties(init);
        assert(says(lines[n - 1], "Properties:"@) is None);
        lemma_labels_differ(trim(lines.last()));
        if forall|j: int| 0 <= j < lines.len() ==> volume_in(#[trigger] lines[j]) is None {
            assert forall|j: int| 0 <= j < init.len() implies volume_in(
                #[trigger] init[j],
            ) is None by {
                assert(init[j] == lines[j]);
            }
            assert(volume_in(lines[n - 1]) is None);
        }
        if 0 <= k < n && volume_in(lines[k]) is Some && (forall|j: int|
            k < j < lines.len() ==> volume_in(#[trigger] lines[j]) is None) {
            if k < n - 1 {
                assert(init[k] == lines[k]);
                assert forall|j: int| k < j < init.len() implies volume_in(
                    #[trigger] init[j],
                ) is None by {
                    assert(init[j] == lines[j]);
                }
                assert(volume_in(lines[n - 1]) is None);
            }
        }
    }
}

/// The volume of a sink input is the first percentage in the last line before its properties
/// that starts with `Volume:` and has one; without such a line there is none.
pub proof fn law_the_volume_is_what_the_volume_line_says(
    id: Seq<char>,
    lines: Seq<Seq<char>>,
    n: int,
    k: int,
)
    requires
        properties_begin(lines, n),
    ensures
        (forall|j: int| 0 <= j < n ==> volume_in(#[trigger] lines[j]) is None) ==> sink_of(
            id,
            lines,
        ).percent is None,
        0 <= k < n && volume_in(lines[k]) is Some && (forall|j: int|
            k < j < n ==> volume_in(#[trigger] lines[j]) is None) ==> sink_of(id, lines).percent
            == volume_in(lines[k]),
{
    let head = lines.take(n);
    lemma_after_properties(lines, n);
    lemma_take_none(lines, n);
    lemma_percent(head, k);
    if forall|j: int| 0 <= j < n ==> volume_in(#[trigger] lines[j]) is None {
        assert forall|j: int| 0 <= j < head.len() implies volume_in(#[trigger] head[j]) is None by {
            assert(head[j] == lines[j]);
        }
    }
    if 0 <= k < n && volume_in(lines[k]) is Some && (forall|j: int|
        k < j < n ==> volume_in(#[trigger] lines[j]) is None) {
        assert(head[k] == lines[k]);
        assert forall|j: int| k < j < head.len() implies volume_in(#[trigger] head[j]) is None by {
            assert(head[j] == lines[j]);
        }
    }
}

/// The value that a line after the beginning of the properties gives to a key.
pub open spec fn value_in(line: Seq<char>, key: Seq<char>) -> Option<Seq<char>> {
    if says(line, "Properties:"@) is Some {
        None
    } else {
        match property(trim(line)) {
            Some((k, value)) => if k == key {
                Some(value)
            } else {
                None
            },
            None => None,
        }
    }
}

proof fn lemma_properties(lines: Seq<Seq<char>>, n: int, key: Seq<char>, k: int)
    requires
        properties_begin(lines, n),
    ensures
        (forall|j: int| n < j < lines.len() ==> value_in(#[trigger] lines[j], key) is None)
            ==> !block_of(lines).properties.dom().contains(key),
        n < k < lines.len() && value_in(lines[k], key) is Some && (forall|j: int|
            k < j < lines.len() ==> value_in(#[trigger] lines[j], key) is None) ==> block_of(
            lines,
        ).properties.dom().contains(key) && Some(block_of(lines).properties[key]) == value_in(
            lines[k],
            key,
        ),
    decreases lines.len(),
{
    if n == lines.len() {
        lemma_before_properties(lines);
    } else {
        let init = lines.drop_last();
        let last = lines.last();
        let m = init.len() as int;
        lemma_labels_differ(trim(last));
        if n == m {
            assert(none_with(init, m, "Properties:"@)) by {
                assert forall|j: int| 0 <= j < m implies says(
                    #[trigger] init[j],
                    "Properties:"@,
                ) is None by {
                    assert(init[j] == lines[j]);
                }
            }
            lemma_before_properties(init);
            assert(says(lines[n], "Properties:"@) is Some);
        } else {
            assert(properties_begin(init, n)) by {
                assert forall|j: int| 0 <= j < n implies says(
                    #[trigger] init[j],
                    "Properties:"@,
                ) is None by {
                    assert(init[j] == lines[j]);
                }
                assert(init[n] == lines[n]);
            }
            lemma_after_properties(init, n);
            lemma_properties(init, n, key, k);
            if forall|j: int| n < j < lines.len() ==> value_in(#[trigger] lines[j], key) is None {
                assert forall|j: int| n < j < init.len() implies value_in(
                    #[trigger] init[j],
                    key,
                ) is None by {
                    assert(init[j] == lines[j]);
                }
                assert(value_in(lines[m], key) is None);
            }
            if n < k < lines.len() && value_in(lines[k], key) is Some && (forall|j: int|
                k < j < lines.len() ==> value_in(#[trigger] lines[j], key) is None) {
                if k < m {
                    assert(init[k] == lines[k]);
                    assert forall|j: int| k < j < init.len() implies value_in(
                        #[trigger] init[j],
                        key,
                    ) is None by {
                        assert(init[j] == lines[j]);
                    }
                    assert(value_in(lines[m], key) is None);
                }
            }
        }
    }
}

/// Whether the line at `k` is the last among the properties that gives a value to a key.
pub open spec fn gives(lines: Seq<Seq<char>>, n: int, k: int, key: Seq<char>) -> bool {
    &&& n < k < lines.len()
    &&& value_in(lines[k], key) is Some
    &&& forall|j: int| k < j < lines.len() ==> value_in(#[trigger] lines[j], key) is None
}

/// Whether no line among the properties gives a value to a key.
pub open spec fn nothing_gives(lines: Seq<Seq<char>>, n: int, key: Seq<char>) -> bool {
    forall|j: int| n < j < lines.len() ==> value_in(#[trigger] lines[j], key) is None
}

/// A sink input is called by the last value of `application.name` among its properties; or
/// else by that of `application.process.binary`; or else by its id. The id is the given one.
pub proof fn law_the_name_is_what_the_properties_say(
    id: Seq<char>,
    lines: Seq<Seq<char>>,
    n: int,
    k: int,
)
    requires
        properties_begin(lines, n),
    ensures
        sink_of(id, lines).id == id,
        gives(lines, n, k, "application.name"@) ==> Some(sink_of(id, lines).display_name)
            == value_in(lines[k], "application.name"@),
        nothing_gives(lines, n, "application.name"@) && gives(
            lines,
            n,
            k,
            "application.process.binary"@,
        ) ==> Some(sink_of(id, lines).display_name) == value_in(
            lines[k],
            "application.process.binary"@,
        ),
        nothing_gives(lines, n, "application.name"@) && nothing_gives(
            lines,
            n,
            "application.process.binary"@,
        ) ==> sink_of(id, lines).display_name == id,
{
    lemma_properties(lines, n, "application.name"@, k);
    lemma_properties(lines, n, "application.process.binary"@, k);
}

/// Whether two blocks agree in all but the activity.
spec fn same_but_activity(a: BlockView, b: BlockView) -> bool {
    BlockView { is_active: true, ..a } == BlockView { is_active: true, ..b }
}

proof fn lemma_other_corked_line(lines: Seq<Seq<char>>, i: int, line: Seq<char>)
    requires
        0 <= i < lines.len(),
        says(lines[i], "Corked:"@) is Some,
        says(line, "Corked:"@) is Some,
        none_with(lines, i, "Properties:"@),
    ensures
        same_but_activity(block_of(lines), block_of(lines.update(i, line))),
    decreases lines.len(),
{
    let init = lines.drop_last();
    let other = lines.update(i, line);
    if i < init.len() {
        assert(other.drop_last() =~= init.update(i, line));
        assert(other.last() == lines.last());
        assert(none_with(init, i, "Properties:"@)) by {
            assert forall|j: int| 0 <= j < i implies says(
                #[trigger] init[j],
                "Properties:"@,
            ) is None by {
                assert(init[j] == lines[j]);
            }
        }
        lemma_other_corked_line(init, i, line);
    } else {
        assert(other.drop_last() =~= init);
        assert(other.last() == line);
        assert(none_with(init, init.len() as int, "Properties:"@)) by {
            assert forall|j: int| 0 <= j < init.len() implies says(
                #[trigger] init[j],
                "Properties:"@,
            ) is None by {
                assert(init[j] == lines[j]);
            }
        }
        lemma_before_properties(init);
        lemma_labels_differ(trim(line));
        lemma_labels_differ(trim(lines.last()));
    }
}

/// Whether a sink input is paused has no bearing on the rest: another `Corked:` line leaves
/// its name, volume and mute as they were.
pub proof fn law_pausing_changes_nothing_else(
    id: Seq<char>,
    lines: Seq<Seq<char>>,
    i: int,
    line: Seq<char>,
)
    requires
        0 <= i < lines.len(),
        says(lines[i], "Corked:"@) is Some,
        says(line, "Corked:"@) is Some,
        none_with(lines, i, "Properties:"@),
    ensures
        ({
            let before = sink_of(id, lines);
            let after = sink_of(id, lines.update(i, line));
            &&& after.id == before.id
            &&& after.display_name == before.display_name
            &&& after.percent == before.percent
            &&& after.muted == before.muted
        }),
{
    lemma_other_corked_line(lines, i, line);
    let (a, b) = (block_of(lines), block_of(lines.update(i, line)));
    let (x, y) = (BlockView { is_active: true, ..a }, BlockView { is_active: true, ..b });
    assert(x.muted == y.muted && x.percent == y.percent && x.properties == y.properties);
}

proof fn lemma_block_of_header(all: Seq<Seq<char>>, h: int, id: Seq<char>)
    requires
        0 <= h < all.len(),
        header_id(all[h]) == Some(id),
        forall|k: int| h < k < all.len() ==> header_id(#[trigger] all[k]) is None,
    ensures
        sinks_in(all).current == Some((id, all.skip(h + 1))),
        sinks_in(all).complete.len() == header_ids(all.take(h)).len(),
        sinks_in(all).complete == completed(sinks_in(all.take(h))),
    decreases all.len(),
{
    let init = all.drop_last();
    if h == all.len() - 1 {
        assert(init =~= all.take(h));
        assert(all.skip(h + 1) =~= Seq::<Seq<char>>::empty());
        lemma_counts_headers(init);
    } else {
        assert(init.take(h) =~= all.take(h));
        assert forall|k: int| h < k < init.len() implies header_id(#[trigger] init[k]) is None by {
            assert(init[k] == all[k]);
        }
        lemma_block_of_header(init, h, id);
        assert(header_id(all[all.len() - 1]) is None);
        assert(init.skip(h + 1).push(all.last()) =~= all.skip(h + 1));
    }
}

proof fn lemma_counts_headers(all: Seq<Seq<char>>)
    ensures
        completed(sinks_in(all)).len() == header_ids(all).len(),
        sinks_in(all).current is None ==> sinks_in(all).complete.len() == 0,
    decreases all.len(),
{
    if all.len() > 0 {
        lemma_counts_headers(all.drop_last());
    }
}

proof fn lemma_complete_stays(all: Seq<Seq<char>>, g: int)
    requires
        0 <= g <= all.len(),
        g < all.len() ==> header_id(all[g]) is Some,
    ensures
        completed(sinks_in(all)).len() >= completed(sinks_in(all.take(g))).len(),
        forall|k: int|
            0 <= k < completed(sinks_in(all.take(g))).len() ==> #[trigger] completed(
                sinks_in(all),
            )[k] == completed(sinks_in(all.take(g)))[k],
        g < all.len() ==> sinks_in(all).current is Some && sinks_in(all).complete.len()
            >= completed(sinks_in(all.take(g))).len() && forall|k: int|
            0 <= k < completed(sinks_in(all.take(g))).len() ==> #[trigger] sinks_in(
                all,
            ).complete[k] == completed(sinks_in(all.take(g)))[k],
    decreases all.len(),
{
    if g == all.len() {
        assert(all.take(g) =~= all);
    } else {
        let init = all.drop_last();
        assert(init.take(g) =~= all.take(g));
        if g < init.len() {
            assert(init[g] == all[g]);
            lemma_complete_stays(init, g);
        } else {
            assert(init =~= all.take(g));
        }
    }
}

/// What stands between a header and the next one, or the end, belongs to the sink input of
/// that header, whatever stands elsewhere. It is the one after all those whose headers come
/// before.
pub proof fn law_lines_belong_to_the_header_above(output: Seq<char>, h: int, g: int)
    requires
        0 <= h < g <= lines(output).len(),
        header_id(lines(output)[h]) is Some,
        forall|k: int| h < k < g ==> header_id(#[trigger] lines(output)[k]) is None,
        g < lines(output).len() ==> header_id(lines(output)[g]) is Some,
    ensures
        ({
            let all = lines(output);
            let at = header_ids(all.take(h)).len() as int;
            &&& at < sink_inputs(output).len()
            &&& sink_inputs(output)[at] == sink_of(
                header_id(all[h]).unwrap(),
                all.subrange(h + 1, g),
            )
        }),
{
    let all = lines(output);
    let head = all.take(g);
    let id = header_id(all[h]).unwrap();
    assert(head[h] == all[h]);
    assert forall|k: int| h < k < head.len() implies header_id(#[trigger] head[k]) is None by {
        assert(head[k] == all[k]);
    }
    lemma_block_of_header(head, h, id);
    assert(head.take(h) =~= all.take(h));
    assert(head.skip(h + 1) =~= all.subrange(h + 1, g));
    lemma_complete_stays(all, g);
    let at = header_ids(all.take(h)).len() as int;
    assert(completed(sinks_in(head))[at] == sink_of(id, all.subrange(h + 1, g)));
}

/// A line is a header exactly if it starts, after white space, with `Sink Input #`; what
/// follows is the id.
pub proof fn law_what_a_header_is(line: Seq<char>)
    ensures
        match header_id(line) {
            Some(id) => exists|rest: Seq<char>|
                trim_start(line) == #[trigger] ("Sink Input #"@ + rest) && id == trim(rest),
            None => forall|rest: Seq<char>|
                trim_start(line) != #[trigger] ("Sink Input #"@ + rest),
        },
{
    let text = trim_start(line);
    let prefix = "Sink Input #"@;
    if header_id(line) is Some {
        let rest = text.skip(prefix.len() as int);
        assert(text =~= prefix + rest);
    } else {
        assert forall|rest: Seq<char>| text != #[trigger] (prefix + rest) by {
            if text == prefix + rest {
                assert(prefix.is_prefix_of(text));
            }
        }
    }
}

/// The session of a sink input shows its id, name, mute and activity, and the volume that
/// was read, full if there was none; Linux knows neither icons nor ducking nor routing.
pub proof fn law_a_sink_input_is_shown_as_it_is(
    generations: Map<Seq<char>, u64>,
    sink: SinkView,
    fraction: Level,
)
    ensures
        ({
            let row = sink_session(generations, sink, fraction);
            &&& (row.id, row.display_name) == (sink.id, sink.display_name)
            &&& (row.muted, row.is_active) == (sink.muted, sink.is_active)
            &&& row.volume == row.effective_volume
            &&& sink.percent is None ==> row.volume.bits == 0x3f80_0000
            &&& sink.percent is Some ==> row.volume == clamped_volume(fraction)
            &&& row.balance.bits == 0
            &&& row.icon_png is None && row.output_device_id is None
            &&& !row.is_ducked && !row.is_duck_trigger
            &&& generations.dom().contains(sink.id) ==> row.write_generation
                == generations[sink.id]
            &&& !generations.dom().contains(sink.id) ==> row.write_generation == 0
        }),
{
}

/// What was read of a sink input holds what its fields say.
pub proof fn law_a_sink_input_shows_its_fields(sink: SinkInput)
    ensures
        (sink@.id, sink@.display_name) == (sink.id@, sink.display_name@),
        (sink@.muted, sink@.is_active) == (sink.muted, sink.is_active),
        sink@.percent == opt_text(sink.percent),
{
}

/// Lists of sink inputs and of lines hold their elements, each in its place.
pub proof fn law_lists_hold_their_elements(sinks: Seq<SinkInput>, lines: Seq<Vec<char>>)
    ensures
        sink_views(sinks).len() == sinks.len(),
        forall|i: int| 0 <= i < sinks.len() ==> #[trigger] sink_views(sinks)[i] == sinks[i]@,
        char_views(lines).len() == lines.len(),
        forall|i: int| 0 <= i < lines.len() ==> #[trigger] char_views(lines)[i] == lines[i]@,
{
}

} // verus!
