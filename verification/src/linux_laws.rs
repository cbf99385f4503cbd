//! What holds of the sink inputs that are read from text.

use vstd::prelude::*;

use crate::linux::{
    block_of, block_step, completed, header_id, joined, outcome_error, property, sink_inputs,
    sink_of, sinks_in, PactlOutcome, SinkView,
};
use crate::session::MixerErrorView;
use crate::text::{find, find_from, is_space, lines, occurs_at, trim};
use crate::text_laws::{law_the_first_place_is_found, stands_at};

verus! {

/// The ids in the headers among the lines.
pub open spec fn header_ids(lines: Seq<Seq<char>>) -> Seq<Seq<char>>
    decreases lines.len(),
{
    if lines.len() == 0 {
        Seq::empty()
    } else {
        match header_id(lines.last()) {
            Some(id) => header_ids(lines.drop_last()).push(id),
            None => header_ids(lines.drop_last()),
        }
    }
}

/// The ids of sink inputs.
pub open spec fn sink_ids(sinks: Seq<SinkView>) -> Seq<Seq<char>> {
    sinks.map_values(|s: SinkView| s.id)
}

proof fn lemma_sinks_of_headers(lines: Seq<Seq<char>>)
    ensures
        sink_ids(completed(sinks_in(lines))) == header_ids(lines),
        sinks_in(lines).current is None ==> sinks_in(lines).complete.len() == 0,
    decreases lines.len(),
{
    if lines.len() > 0 {
        let before = sinks_in(lines.drop_last());
        let after = sinks_in(lines);
        lemma_sinks_of_headers(lines.drop_last());
        assert(sink_ids(completed(after)) =~= header_ids(lines)) by {
            match header_id(lines.last()) {
                Some(id) => {
                    let last = sink_of(id, Seq::empty());
                    assert(completed(after) == completed(before).push(last));
                    assert(sink_ids(completed(before).push(last)) =~= sink_ids(
                        completed(before),
                    ).push(id));
                },
                None => {
                    assert(sink_ids(completed(after)) =~= sink_ids(completed(before)));
                },
            }
        }
    } else {
        assert(sink_ids(completed(sinks_in(lines))) =~= header_ids(lines));
    }
}

/// There is one sink input per header, with the header's id, in the order of the headers.
pub proof fn law_one_sink_input_per_header(output: Seq<char>)
    ensures
        sink_ids(sink_inputs(output)) == header_ids(lines(output)),
{
    lemma_sinks_of_headers(lines(output));
}

proof fn lemma_trim_of_dense(s: Seq<char>)
    requires
        s.len() > 0,
        !is_space(s[0]),
        !is_space(s.last()),
    ensures
        trim(s) == s,
{
}

proof fn lemma_first_occurrence(s: Seq<char>, part: Seq<char>, from: int, at: int)
    requires
        0 <= from <= at,
        occurs_at(s, part, at),
        forall|i: int| from <= i < at ==> !#[trigger] occurs_at(s, part, i),
    ensures
        find_from(s, part, from) == Some(at),
    decreases at - from,
{
    if from < at {
        assert(!occurs_at(s, part, from));
        lemma_first_occurrence(s, part, from + 1, at);
    }
}

/// A property line that is written as its key, an equals sign and its value in quotes reads
/// back as that key and value, whatever the value holds. The key must be free of surrounding
/// white space, and the equals sign must be the first one in spaces.
pub proof fn law_property_line_reads_back(key: Seq<char>, value: Seq<char>)
    requires
        trim(key) == key,
        forall|i: int|
            0 <= i < key.len() ==> !#[trigger] occurs_at(
                key + " = "@ + seq!['"'] + value + seq!['"'],
                " = "@,
                i,
            ),
    ensures
        property(key + " = "@ + seq!['"'] + value + seq!['"']) == Some((key, value)),
{
    reveal_strlit(" = ");
    let line = key + " = "@ + seq!['"'] + value + seq!['"'];
    let quoted = seq!['"'] + value + seq!['"'];
    let at = key.len() as int;
    assert(line.subrange(at, at + 3) =~= " = "@);
    assert(occurs_at(line, " = "@, at));
    lemma_first_occurrence(line, " = "@, 0, at);
    assert(line.skip(at + 3) =~= quoted);
    assert(line.take(at) =~= key);
    lemma_trim_of_dense(quoted);
    assert(quoted.subrange(1, quoted.len() - 1) =~= value);
}

/// Once the properties have begun, no line changes anything but the properties.
pub proof fn law_properties_change_nothing_else(lines: Seq<Seq<char>>, line: Seq<char>)
    requires
        block_of(lines).in_properties,
    ensures
        ({
            let before = block_of(lines);
            let after = block_of(lines.push(line));
            &&& after.percent == before.percent
            &&& after.muted == before.muted
            &&& after.is_active == before.is_active
            &&& after.in_properties
        }),
{
    assert(lines.push(line).drop_last() == lines);
    assert(block_of(lines.push(line)) == block_step(block_of(lines), line));
}

/// The arguments of a command are written one after the other with one space between them.
pub proof fn law_how_arguments_are_written(first: Seq<Seq<char>>, rest: Seq<Seq<char>>)
    requires
        first.len() > 0,
        rest.len() > 0,
    ensures
        joined(first + rest) == joined(first) + seq![' '] + joined(rest),
        first.len() == 1 ==> joined(first) == first[0],
        joined(Seq::<Seq<char>>::empty()).len() == 0,
    decreases rest.len(),
{
    let all = first + rest;
    assert(all.drop_last() =~= first + rest.drop_last());
    assert(all.last() == rest.last());
    if rest.len() > 1 {
        law_how_arguments_are_written(first, rest.drop_last());
        assert(joined(all) =~= joined(first) + seq![' '] + joined(rest));
    } else {
        assert(first + rest.drop_last() =~= first);
        assert(rest[0] == rest.last());
    }
}

/// A command that failed because there is no such sink input says that the session is not
/// found; any other failure says what was run and what it printed, without the space around
/// that. One that could not be started says so, and one that succeeded is no error.
pub proof fn law_what_a_command_comes_to(
    args: Seq<Seq<char>>,
    session_id: Seq<char>,
    outcome: PactlOutcome,
)
    ensures
        match outcome {
            PactlOutcome::Succeeded(_) => outcome_error(args, session_id, outcome) is None,
            PactlOutcome::NotStarted(reason) => outcome_error(args, session_id, outcome) == Some(
                MixerErrorView::Platform("failed to spawn pactl: "@ + reason@),
            ),
            PactlOutcome::Failed(stderr) => {
                let said = trim(stderr@);
                let gone = exists|i: int| stands_at(said, "No such entity"@, i);
                &&& gone ==> outcome_error(args, session_id, outcome) == Some(
                    MixerErrorView::SessionNotFound(session_id),
                )
                &&& !gone ==> outcome_error(args, session_id, outcome) == Some(
                    MixerErrorView::Platform("pactl "@ + joined(args) + " failed: "@ + said),
                )
            },
        },
{
    if let PactlOutcome::Failed(stderr) = outcome {
        let said = trim(stderr@);
        law_the_first_place_is_found(said, "No such entity"@);
        match find(said, "No such entity"@) {
            Some(i) => {
                assert(stands_at(said, "No such entity"@, i));
            },
            None => {},
        }
    }
}

} // verus!
