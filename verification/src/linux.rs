//! Sessions on Linux: the sink inputs that `pactl list sink-inputs` prints, and the
//! commands that change them.

use vstd::prelude::*;

use crate::level::{Level, ONE_BITS, ZERO_BITS};
use crate::name_map::{texts, NameMap};
use crate::session::{
    clamp_volume, clamped_volume, generation_of, next_generation, opt_text, session_not_found,
    AppSession, MixerError, MixerErrorView, SessionView,
};
use crate::text::{
    after_prefix, chars_of, contains_text, find, is_digit, lines, part_of, position_of, push_signed,
    signed_decimal, split_lines, strip_prefix, text_of, trim, trim_start, trimmed, trimmed_start,
};

verus! {

/// Whether a text of digits and points writes a number: at least one digit, and at most
/// one point.
pub open spec fn is_number_text(s: Seq<char>) -> bool {
    &&& exists|i: int| 0 <= i < s.len() && is_digit(#[trigger] s[i])
    &&& forall|i: int, j: int|
        0 <= i < j < s.len() && #[trigger] s[i] == '.' ==> #[trigger] s[j] != '.'
}

pub open spec fn is_number_char(c: char) -> bool {
    is_digit(c) || c == '.'
}

/// The longest end of `s` that consists of digits and points.
pub open spec fn number_suffix(s: Seq<char>) -> Seq<char>
    decreases s.len(),
{
    if s.len() > 0 && is_number_char(s.last()) {
        number_suffix(s.drop_last()).push(s.last())
    } else {
        Seq::empty()
    }
}

/// Whether a percent sign with a number before it stands at `i`.
pub open spec fn is_percentage_at(s: Seq<char>, i: int) -> bool {
    s[i] == '%' && is_number_text(number_suffix(s.take(i)))
}

/// The number of the first percentage at `from` or later.
pub open spec fn percentage_from(s: Seq<char>, from: int) -> Option<Seq<char>>
    decreases s.len() - from,
{
    if from >= s.len() {
        None
    } else if is_percentage_at(s, from) {
        Some(number_suffix(s.take(from)))
    } else {
        percentage_from(s, from + 1)
    }
}

/// The first number that a percent sign follows.
pub open spec fn first_percentage(s: Seq<char>) -> Option<Seq<char>> {
    percentage_from(s, 0)
}

/// The key and value of a line like `key = "value"`.
pub open spec fn property(line: Seq<char>) -> Option<(Seq<char>, Seq<char>)> {
    match find(line, " = "@) {
        Some(i) => {
            let value = trim(line.skip(i + 3));
            if value.len() >= 2 && value[0] == '"' && value.last() == '"' {
                Some((trim(line.take(i)), value.subrange(1, value.len() - 1)))
            } else {
                None
            }
        },
        None => None,
    }
}

/// What is known of a sink input after some of its lines.
#[verifier::ext_equal]
pub struct BlockView {
    /// The volume in percent, as it is written.
    pub percent: Option<Seq<char>>,
    pub muted: bool,
    pub is_active: bool,
    pub in_properties: bool,
    pub properties: Map<Seq<char>, Seq<char>>,
}

/// What is known before any line.
pub open spec fn block_start() -> BlockView {
    BlockView {
        percent: None,
        muted: false,
        is_active: true,
        in_properties: false,
        properties: Map::empty(),
    }
}

/// What is known after one more line.
pub open spec fn block_step(block: BlockView, line: Seq<char>) -> BlockView {
    let text = trim(line);
    if "Properties:"@.is_prefix_of(text) {
        BlockView { in_properties: true, ..block }
    } else if block.in_properties {
        match property(text) {
            Some((key, value)) => BlockView {
                properties: block.properties.insert(key, value),
                ..block
            },
            None => block,
        }
    } else if after_prefix(text, "Volume:"@) is Some {
        match first_percentage(after_prefix(text, "Volume:"@).unwrap()) {
            Some(percent) => BlockView { percent: Some(percent), ..block },
            None => block,
        }
    } else if after_prefix(text, "Mute:"@) is Some {
        BlockView { muted: trim(after_prefix(text, "Mute:"@).unwrap()) == "yes"@, ..block }
    } else if after_prefix(text, "Corked:"@) is Some {
        BlockView { is_active: trim(after_prefix(text, "Corked:"@).unwrap()) != "yes"@, ..block }
    } else {
        block
    }
}

/// What is known after all lines of a sink input.
pub open spec fn block_of(lines: Seq<Seq<char>>) -> BlockView
    decreases lines.len(),
{
    if lines.len() == 0 {
        block_start()
    } else {
        block_step(block_of(lines.drop_last()), lines.last())
    }
}

/// A sink input.
#[verifier::ext_equal]
pub struct SinkView {
    pub id: Seq<char>,
    pub display_name: Seq<char>,
    pub percent: Option<Seq<char>>,
    pub muted: bool,
    pub is_active: bool,
}

/// The sink input with the given id and lines. It is called by its application's name,
/// or else its program, or else its id.
pub open spec fn sink_of(id: Seq<char>, lines: Seq<Seq<char>>) -> SinkView {
    let block = block_of(lines);
    SinkView {
        id,
        display_name: if block.properties.dom().contains("application.name"@) {
            block.properties["application.name"@]
        } else if block.properties.dom().contains("application.process.binary"@) {
            block.properties["application.process.binary"@]
        } else {
            id
        },
        percent: block.percent,
        muted: block.muted,
        is_active: block.is_active,
    }
}

/// The id in the first line of a sink input.
pub open spec fn header_id(line: Seq<char>) -> Option<Seq<char>> {
    match after_prefix(trim_start(line), "Sink Input #"@) {
        Some(rest) => Some(trim(rest)),
        None => None,
    }
}

/// The sink inputs in the lines: those that are complete, and the id and lines of the
/// last one.
#[verifier::ext_equal]
pub struct SinksView {
    pub complete: Seq<SinkView>,
    pub current: Option<(Seq<char>, Seq<Seq<char>>)>,
}

/// All sink inputs, with the last one.
pub open spec fn completed(sinks: SinksView) -> Seq<SinkView> {
    match sinks.current {
        Some((id, lines)) => sinks.complete.push(sink_of(id, lines)),
        None => sinks.complete,
    }
}

/// The sink inputs after one more line: a header starts another one, and what stands
/// before the first header belongs to none.
pub open spec fn sinks_step(sinks: SinksView, line: Seq<char>) -> SinksView {
    match header_id(line) {
        Some(id) => SinksView { complete: completed(sinks), current: Some((id, Seq::empty())) },
        None => match sinks.current {
            Some((id, lines)) => SinksView { current: Some((id, lines.push(line))), ..sinks },
            None => sinks,
        },
    }
}

pub open spec fn sinks_in(lines: Seq<Seq<char>>) -> SinksView
    decreases lines.len(),
{
    if lines.len() == 0 {
        SinksView { complete: Seq::empty(), current: None }
    } else {
        sinks_step(sinks_in(lines.drop_last()), lines.last())
    }
}

/// The sink inputs that the output of `pactl list sink-inputs` holds.
pub open spec fn sink_inputs(output: Seq<char>) -> Seq<SinkView> {
    completed(sinks_in(lines(output)))
}

/// A sink input.
#[derive(Debug, PartialEq)]
pub struct SinkInput {
    pub id: String,
    pub display_name: String,
    /// The volume in percent, as it is written.
    pub percent: Option<String>,
    pub muted: bool,
    pub is_active: bool,
}

impl View for SinkInput {
    type V = SinkView;

    open spec fn view(&self) -> SinkView {
        SinkView {
            id: self.id@,
            display_name: self.display_name@,
            percent: opt_text(self.percent),
            muted: self.muted,
            is_active: self.is_active,
        }
    }
}

pub open spec fn sink_views(sinks: Seq<SinkInput>) -> Seq<SinkView> {
    sinks.map_values(|s: SinkInput| s@)
}

pub open spec fn char_views(lines: Seq<Vec<char>>) -> Seq<Seq<char>> {
    lines.map_values(|l: Vec<char>| l@)
}

fn number_char(c: char) -> (yes: bool)
    ensures
        yes == is_number_char(c),
{
    ('0' <= c && c <= '9') || c == '.'
}

proof fn lemma_number_suffix(s: Seq<char>, from: int)
    requires
        0 <= from <= s.len(),
        forall|k: int| from <= k < s.len() ==> is_number_char(#[trigger] s[k]),
        from == 0 || !is_number_char(s[from - 1]),
    ensures
        number_suffix(s) == s.skip(from),
    decreases s.len(),
{
    if from < s.len() {
        assert(is_number_char(s[s.len() - 1]));
        lemma_number_suffix(s.drop_last(), from);
        assert(s.drop_last().skip(from).push(s.last()) =~= s.skip(from));
    } else {
        assert(s.skip(from) =~= Seq::<char>::empty());
    }
}

fn number_text(token: &Vec<char>) -> (yes: bool)
    requires
        forall|k: int| 0 <= k < token@.len() ==> is_number_char(#[trigger] token@[k]),
    ensures
        yes == is_number_text(token@),
{
    let mut has_digit = false;
    let mut has_point = false;
    let mut i: usize = 0;
    while i < token.len()
        invariant
            i <= token@.len(),
            forall|k: int| 0 <= k < token@.len() ==> is_number_char(#[trigger] token@[k]),
            has_digit <==> exists|k: int| 0 <= k < i && is_digit(#[trigger] token@[k]),
            has_point <==> exists|k: int| 0 <= k < i && #[trigger] token@[k] == '.',
            forall|k: int, m: int|
                0 <= k < m < i && #[trigger] token@[k] == '.' ==> #[trigger] token@[m] != '.',
        decreases token@.len() - i,
    {
        if token[i] == '.' {
            if has_point {
                proof {
                    let k = choose|k: int| 0 <= k < i && #[trigger] token@[k] == '.';
                    assert(token@[k] == '.' && token@[i as int] == '.');
                }
                return false;
            }
            has_point = true;
        } else {
            assert(is_digit(token@[i as int]));
            has_digit = true;
        }
        i += 1;
    }
    has_digit
}

/// The number before the character at `at`, as it is written.
fn number_before(text: &Vec<char>, at: usize) -> (number: Option<Vec<char>>)
    requires
        at <= text@.len(),
    ensures
        match number {
            Some(n) => n@ == number_suffix(text@.take(at as int)) && is_number_text(n@),
            None => !is_number_text(number_suffix(text@.take(at as int))),
        },
{
    let before = part_of(text, 0, at);
    assert(before@ =~= text@.take(at as int));
    let mut from: usize = before.len();
    while from > 0 && number_char(before[from - 1])
        invariant
            from <= before@.len(),
            forall|k: int| from <= k < before@.len() ==> is_number_char(#[trigger] before@[k]),
        decreases from,
    {
        from -= 1;
    }
    proof {
        lemma_number_suffix(before@, from as int);
    }
    let token = part_of(&before, from, before.len());
    assert(token@ =~= before@.skip(from as int));
    if number_text(&token) {
        Some(token)
    } else {
        None
    }
}

/// The first number that a percent sign follows, as it is written.
pub fn extract_first_percentage(text: &Vec<char>) -> (percent: Option<Vec<char>>)
    ensures
        match percent {
            Some(p) => first_percentage(text@) == Some(p@),
            None => first_percentage(text@) is None,
        },
{
    let mut i: usize = 0;
    while i < text.len()
        invariant
            i <= text@.len(),
            first_percentage(text@) == percentage_from(text@, i as int),
        decreases text@.len() - i,
    {
        if text[i] == '%' {
            if let Some(number) = number_before(text, i) {
                return Some(number);
            }
        }
        i += 1;
    }
    None
}

/// The key and value of a line like `key = "value"`.
pub fn parse_property_line(line: &str) -> (pair: Option<(String, String)>)
    ensures
        match pair {
            Some((key, value)) => property(line@) == Some((key@, value@)),
            None => property(line@) is None,
        },
{
    let chars = chars_of(line);
    let equals = chars_of(" = ");
    proof {
        reveal_strlit(" = ");
        crate::text::lemma_find_from(line@, " = "@, 0);
    }
    let at: usize = match position_of(&chars, &equals) {
        Some(i) => i,
        None => return None,
    };
    let rest = part_of(&chars, at + 3, chars.len());
    assert(rest@ =~= line@.skip(at + 3));
    let value = trimmed(&rest);
    let n: usize = value.len();
    if n < 2 || value[0] != '"' || value[n - 1] != '"' {
        return None;
    }
    let before = part_of(&chars, 0, at);
    assert(before@ =~= line@.take(at as int));
    let key = trimmed(&before);
    let inner = part_of(&value, 1, n - 1);
    Some((text_of(&key), text_of(&inner)))
}

struct Block {
    percent: Option<Vec<char>>,
    muted: bool,
    is_active: bool,
    in_properties: bool,
    properties: NameMap<String>,
}

spec fn text_value() -> spec_fn(String) -> Seq<char> {
    |s: String| s@
}

spec fn opt_chars(c: Option<Vec<char>>) -> Option<Seq<char>> {
    match c {
        Some(c) => Some(c@),
        None => None,
    }
}

impl Block {
    spec fn shown(&self) -> BlockView {
        BlockView {
            percent: opt_chars(self.percent),
            muted: self.muted,
            is_active: self.is_active,
            in_properties: self.in_properties,
            properties: self.properties@.map_values(text_value()),
        }
    }

    fn take_line(&mut self, line: &Vec<char>)
        ensures
            final(self).shown() == block_step(old(self).shown(), line@),
    {
        let text = trimmed(line);
        if strip_prefix(&text, "Properties:").is_some() {
            self.in_properties = true;
            return ;
        }
        if self.in_properties {
            if let Some((key, value)) = parse_property_line(&text_of(&text)) {
                proof {
                    crate::seqs::lemma_map_values_insert(
                        self.properties@,
                        text_value(),
                        key@,
                        value,
                    );
                }
                self.properties.insert(&key, value);
            }
            return ;
        }
        if let Some(rest) = strip_prefix(&text, "Volume:") {
            if let Some(percent) = extract_first_percentage(&rest) {
                self.percent = Some(percent);
            }
        } else if let Some(rest) = strip_prefix(&text, "Mute:") {
            self.muted = is_yes(&trimmed(&rest));
        } else if let Some(rest) = strip_prefix(&text, "Corked:") {
            self.is_active = !is_yes(&trimmed(&rest));
        }
    }
}

fn is_yes(text: &Vec<char>) -> (yes: bool)
    ensures
        yes == (text@ == "yes"@),
{
    crate::text::same_text(&text_of(text), "yes")
}

/// The sink input with the given id and lines.
pub fn parse_block(id: &Vec<char>, block_lines: &Vec<Vec<char>>) -> (sink: SinkInput)
    ensures
        sink@ == sink_of(id@, char_views(block_lines@)),
{
    let ghost all = char_views(block_lines@);
    let mut block = Block {
        percent: None,
        muted: false,
        is_active: true,
        in_properties: false,
        properties: NameMap::new(),
    };
    let mut i: usize = 0;
    proof {
        assert(all.take(0) =~= Seq::<Seq<char>>::empty());
        assert(block.shown() =~= block_start());
    }
    while i < block_lines.len()
        invariant
            i <= block_lines@.len(),
            all == char_views(block_lines@),
            block.shown() == block_of(all.take(i as int)),
        decreases block_lines@.len() - i,
    {
        proof {
            assert(all.take(i + 1).drop_last() == all.take(i as int));
            assert(all.take(i + 1).last() == block_lines@[i as int]@);
        }
        block.take_line(&block_lines[i]);
        i += 1;
    }
    assert(all.take(i as int) == all);
    let display_name = match block.properties.get("application.name") {
        Some(name) => name.clone(),
        None => match block.properties.get("application.process.binary") {
            Some(binary) => binary.clone(),
            None => text_of(id),
        },
    };
    let percent = match &block.percent {
        Some(p) => Some(text_of(p)),
        None => None,
    };
    let sink = SinkInput {
        id: text_of(id),
        display_name,
        percent,
        muted: block.muted,
        is_active: block.is_active,
    };
    assert(sink@ =~= sink_of(id@, all));
    sink
}

/// The sink inputs that the output of `pactl list sink-inputs` holds.
pub fn parse_sink_inputs(output: &str) -> (sinks: Vec<SinkInput>)
    ensures
        sink_views(sinks@) == sink_inputs(output@),
{
    let found = split_lines(&chars_of(output));
    let ghost all = char_views(found@);
    let mut sinks: Vec<SinkInput> = Vec::new();
    let mut current_id: Option<Vec<char>> = None;
    let mut current_lines: Vec<Vec<char>> = Vec::new();
    let mut rest = found;
    let ghost mut done: int = 0;
    proof {
        assert(all =~= lines(output@));
        assert(all.skip(0) == all);
        assert(all.take(0) =~= Seq::<Seq<char>>::empty());
        assert(sink_views(sinks@) =~= Seq::<SinkView>::empty());
    }
    while rest.len() > 0
        invariant
            0 <= done <= all.len(),
            char_views(rest@) == all.skip(done),
            sinks_in(all.take(done)) == (SinksView {
                complete: sink_views(sinks@),
                current: match current_id {
                    Some(id) => Some((id@, char_views(current_lines@))),
                    None => None,
                },
            }),
        decreases rest@.len(),
    {
        let ghost rest_before = rest@;
        let ghost sinks_before = sinks@;
        let ghost lines_before = current_lines@;
        let line = rest.remove(0);
        proof {
            assert(char_views(rest_before)[0] == line@);
            assert(char_views(rest_before).len() > 0);
            assert(all.skip(done)[0] == all[done]);
            assert(char_views(rest@) =~= char_views(rest_before).skip(1));
            assert(all.skip(done).skip(1) == all.skip(done + 1));
            assert(all.take(done + 1).drop_last() == all.take(done));
            assert(all.take(done + 1).last() == line@);
        }
        match strip_prefix(&trimmed_start(&line), "Sink Input #") {
            Some(header) => {
                if let Some(id) = current_id.take() {
                    let sink = parse_block(&id, &current_lines);
                    let ghost shown = sink@;
                    sinks.push(sink);
                    assert(sink_views(sinks@) =~= sink_views(sinks_before).push(shown));
                }
                current_lines = Vec::new();
                current_id = Some(trimmed(&header));
                assert(char_views(current_lines@) =~= Seq::<Seq<char>>::empty());
            },
            None => {
                if current_id.is_some() {
                    current_lines.push(line);
                    assert(char_views(current_lines@) =~= char_views(lines_before).push(line@));
                }
            },
        }
        proof {
            done = done + 1;
        }
    }
    assert(char_views(rest@).len() == 0);
    assert(all.take(done) == all);
    if let Some(id) = current_id {
        let ghost sinks_before = sinks@;
        let sink = parse_block(&id, &current_lines);
        let ghost shown = sink@;
        sinks.push(sink);
        assert(sink_views(sinks@) =~= sink_views(sinks_before).push(shown));
    }
    sinks
}

/// What came of running `pactl`.
#[derive(Debug, PartialEq)]
pub enum PactlOutcome {
    /// It could not be started, with the reason.
    NotStarted(String),
    /// It failed, with what it printed as errors.
    Failed(String),
    /// It succeeded, with what it printed.
    Succeeded(String),
}

/// The texts with single spaces between them.
pub open spec fn joined(texts: Seq<Seq<char>>) -> Seq<char>
    decreases texts.len(),
{
    if texts.len() == 0 {
        Seq::empty()
    } else if texts.len() == 1 {
        texts[0]
    } else {
        joined(texts.drop_last()) + seq![' '] + texts.last()
    }
}

fn join(parts: &Vec<String>) -> (text: String)
    ensures
        text@ == joined(texts(parts@)),
{
    let ghost all = texts(parts@);
    let mut text = String::new();
    let mut i: usize = 0;
    assert(text@ =~= joined(all.take(0)));
    while i < parts.len()
        invariant
            i <= parts@.len(),
            all == texts(parts@),
            text@ == joined(all.take(i as int)),
        decreases parts@.len() - i,
    {
        let ghost before = text@;
        proof {
            assert(all.take(i + 1).drop_last() == all.take(i as int));
            assert(all.take(i + 1).last() == parts@[i as int]@);
        }
        if i > 0 {
            text.push(' ');
            text.append(&parts[i]);
            assert(text@ =~= before + seq![' '] + parts@[i as int]@);
        } else {
            text = parts[i].clone();
            assert(all.take(1)[0] == parts@[0]@);
        }
        i += 1;
    }
    assert(all.take(i as int) == all);
    text
}

/// The reason why `pactl` could not be started.
pub open spec fn not_started(reason: Seq<char>) -> MixerErrorView {
    MixerErrorView::Platform("failed to spawn pactl: "@ + reason)
}

/// The error of a command that failed: what it printed says whether the sink input is
/// gone.
pub open spec fn command_error(
    args: Seq<Seq<char>>,
    session_id: Seq<char>,
    stderr: Seq<char>,
) -> MixerErrorView {
    if find(trim(stderr), "No such entity"@) is Some {
        MixerErrorView::SessionNotFound(session_id)
    } else {
        MixerErrorView::Platform("pactl "@ + joined(args) + " failed: "@ + trim(stderr))
    }
}

/// The error that a command ends with, unless it succeeded.
pub open spec fn outcome_error(
    args: Seq<Seq<char>>,
    session_id: Seq<char>,
    outcome: PactlOutcome,
) -> Option<MixerErrorView> {
    match outcome {
        PactlOutcome::NotStarted(reason) => Some(not_started(reason@)),
        PactlOutcome::Failed(stderr) => Some(command_error(args, session_id, stderr@)),
        PactlOutcome::Succeeded(_) => None,
    }
}

/// The session that a sink input is shown as.
pub open spec fn sink_session(
    generations: Map<Seq<char>, u64>,
    sink: SinkView,
    fraction: Level,
) -> SessionView {
    let volume = if sink.percent is Some {
        clamped_volume(fraction)
    } else {
        Level { bits: ONE_BITS }
    };
    SessionView {
        id: sink.id,
        display_name: sink.display_name,
        icon_png: None,
        volume,
        effective_volume: volume,
        muted: sink.muted,
        balance: Level { bits: ZERO_BITS },
        is_active: sink.is_active,
        is_duck_trigger: false,
        is_ducked: false,
        write_generation: generation_of(generations, sink.id),
        output_device_id: None,
    }
}

/// What a command comes to.
pub fn run_pactl(args: &Vec<String>, session_id: &str, outcome: &PactlOutcome) -> (result: Result<
    (),
    MixerError,
>)
    ensures
        match result {
            Ok(()) => outcome_error(texts(args@), session_id@, *outcome) is None,
            Err(e) => outcome_error(texts(args@), session_id@, *outcome) == Some(e@),
        },
{
    match outcome {
        PactlOutcome::NotStarted(reason) => Err(
            MixerError::Platform("failed to spawn pactl: ".to_owned().concat(reason)),
        ),
        PactlOutcome::Failed(stderr) => {
            let message = text_of(&trimmed(&chars_of(stderr)));
            if contains_text(&message, "No such entity") {
                Err(session_not_found(session_id))
            } else {
                let text = "pactl ".to_owned().concat(&join(args)).concat(" failed: ").concat(
                    &message,
                );
                Err(MixerError::Platform(text))
            }
        },
        PactlOutcome::Succeeded(_) => Ok(()),
    }
}

/// Sessions on Linux. What is remembered is how often each of them was changed.
pub struct LinuxMixerBackend {
    pub write_generations: NameMap<u64>,
}

impl View for LinuxMixerBackend {
    type V = Map<Seq<char>, u64>;

    open spec fn view(&self) -> Map<Seq<char>, u64> {
        self.write_generations@
    }
}

impl LinuxMixerBackend {
    pub fn new() -> (backend: Self)
        ensures
            backend@ == Map::<Seq<char>, u64>::empty(),
    {
        LinuxMixerBackend { write_generations: NameMap::new() }
    }

    /// The sink inputs, from what listing them came to.
    pub fn list_sessions(&self, outcome: &PactlOutcome) -> (result: Result<
        Vec<SinkInput>,
        MixerError,
    >)
        ensures
            match *outcome {
                PactlOutcome::NotStarted(reason) => result matches Err(e) && e@ == not_started(
                    reason@,
                ),
                PactlOutcome::Failed(stderr) => result matches Err(e) && e@
                    == MixerErrorView::Platform(
                    "pactl list sink-inputs failed: "@ + trim(stderr@),
                ),
                PactlOutcome::Succeeded(stdout) => result matches Ok(sinks) && sink_views(sinks@)
                    == sink_inputs(stdout@),
            },
    {
        match outcome {
            PactlOutcome::NotStarted(reason) => Err(
                MixerError::Platform("failed to spawn pactl: ".to_owned().concat(reason)),
            ),
            PactlOutcome::Failed(stderr) => {
                let message = text_of(&trimmed(&chars_of(stderr)));
                Err(
                    MixerError::Platform(
                        "pactl list sink-inputs failed: ".to_owned().concat(&message),
                    ),
                )
            },
            PactlOutcome::Succeeded(stdout) => Ok(parse_sink_inputs(stdout)),
        }
    }

    /// The session that a sink input is shown as. `fraction` is its percentage divided by
    /// a hundred; without one the volume counts as full.
    pub fn sink_input_session(&self, sink: &SinkInput, fraction: Level) -> (session: AppSession)
        ensures
            session@ == sink_session(self@, sink@, fraction),
    {
        let volume: Level = if sink.percent.is_some() {
            clamp_volume(fraction)
        } else {
            Level { bits: ONE_BITS }
        };
        let write_generation: u64 = match self.write_generations.get(&sink.id) {
            Some(n) => *n,
            None => 0,
        };
        AppSession {
            id: sink.id.clone(),
            display_name: sink.display_name.clone(),
            icon_png: None,
            volume,
            effective_volume: volume,
            muted: sink.muted,
            balance: Level { bits: ZERO_BITS },
            is_active: sink.is_active,
            is_duck_trigger: false,
            is_ducked: false,
            write_generation,
            output_device_id: None,
        }
    }

    /// The arguments that set a volume, in whole percent.
    pub fn set_volume(&self, session_id: &str, volume: Level) -> (args: Vec<String>)
        ensures
            texts(args@) == seq![
                "set-sink-input-volume"@,
                session_id@,
                signed_decimal(clamped_volume(volume).percent()).push('%'),
            ],
            0 <= clamped_volume(volume).percent() <= 100,
    {
        let percentage: i32 = clamp_volume(volume).to_percent();
        let mut percent = String::new();
        push_signed(&mut percent, percentage);
        percent.push('%');
        assert(percent@ =~= signed_decimal(percentage as int).push('%'));
        let args: Vec<String> = vec![
            "set-sink-input-volume".to_owned(),
            session_id.to_owned(),
            percent,
        ];
        assert(texts(args@) =~= seq![
            "set-sink-input-volume"@,
            session_id@,
            signed_decimal(percentage as int).push('%'),
        ]);
        args
    }

    /// The arguments that mute or unmute.
    pub fn set_muted(&self, session_id: &str, muted: bool) -> (args: Vec<String>)
        ensures
            texts(args@) == seq![
                "set-sink-input-mute"@,
                session_id@,
                if muted {
                    "1"@
                } else {
                    "0"@
                },
            ],
    {
        let flag = if muted {
            "1".to_owned()
        } else {
            "0".to_owned()
        };
        let args: Vec<String> = vec![
            "set-sink-input-mute".to_owned(),
            session_id.to_owned(),
            flag,
        ];
        assert(texts(args@) =~= seq![
            "set-sink-input-mute"@,
            session_id@,
            if muted {
                "1"@
            } else {
                "0"@
            },
        ]);
        args
    }

    /// Ends a change of a sink input, given what came of its command: it counts if it
    /// succeeded.
    pub fn finish_change(
        &mut self,
        args: &Vec<String>,
        session_id: &str,
        outcome: &PactlOutcome,
    ) -> (result: Result<u64, MixerError>)
        ensures
            match result {
                Ok(generation) => {
                    &&& outcome is Succeeded
                    &&& generation == next_generation(generation_of(old(self)@, session_id@))
                    &&& final(self)@ == old(self)@.insert(session_id@, generation)
                },
                Err(e) => {
                    &&& outcome_error(texts(args@), session_id@, *outcome) == Some(e@)
                    &&& final(self)@ == old(self)@
                },
            },
    {
        match run_pactl(args, session_id, outcome) {
            Ok(()) => {
                let before: u64 = match self.write_generations.get(session_id) {
                    Some(n) => *n,
                    None => 0,
                };
                let generation: u64 = before.wrapping_add(1);
                self.write_generations.insert(session_id, generation);
                Ok(generation)
            },
            Err(e) => Err(e),
        }
    }
}

impl Default for LinuxMixerBackend {
    fn default() -> (backend: Self)
        ensures
            backend@ == Map::<Seq<char>, u64>::empty(),
    {
        LinuxMixerBackend::new()
    }
}

} // verus!
