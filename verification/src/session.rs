//! The sessions that the mixer shows, the auto-duck settings, and errors.

use vstd::prelude::*;

use crate::level::{Level, BOOST_BITS, MINUS_ONE_BITS, ONE_BITS, ZERO_BITS};
use crate::name_map::{listed, texts, NameMap};
use crate::seqs::{
    lemma_filter_members, lemma_filter_none, lemma_filter_of_all, lemma_filter_take,
    lemma_push_members,
};
use crate::text::same_text;

verus! {

/// One application that is producing sound, or did so recently.
#[derive(Debug, PartialEq)]
pub struct AppSession {
    /// Identifies the application while it runs; what it is made of depends on the
    /// platform.
    pub id: String,
    pub display_name: String,
    /// The icon as PNG bytes, if there is one.
    pub icon_png: Option<Vec<u8>>,
    /// The volume that the user set, whether or not the session is ducked.
    pub volume: Level,
    /// The volume that is heard: `volume`, scaled down while the session is ducked.
    pub effective_volume: Level,
    pub muted: bool,
    /// From full left (-1) over centered (0) to full right (1).
    pub balance: Level,
    /// Whether it is producing sound right now.
    pub is_active: bool,
    /// Whether it is a reason why other sessions are ducked.
    pub is_duck_trigger: bool,
    /// Whether it is quieter because of another session.
    pub is_ducked: bool,
    /// How often the user has changed this session. A reading with a lower count
    /// was taken before the latest change.
    pub write_generation: u64,
    /// The output device it is routed to; `None` follows the system default.
    pub output_device_id: Option<String>,
}

/// What an `AppSession` holds, as mathematical values.
#[verifier::ext_equal]
pub struct SessionView {
    pub id: Seq<char>,
    pub display_name: Seq<char>,
    pub icon_png: Option<Seq<u8>>,
    pub volume: Level,
    pub effective_volume: Level,
    pub muted: bool,
    pub balance: Level,
    pub is_active: bool,
    pub is_duck_trigger: bool,
    pub is_ducked: bool,
    pub write_generation: u64,
    pub output_device_id: Option<Seq<char>>,
}

/// The text of an optional string.
pub open spec fn opt_text(s: Option<String>) -> Option<Seq<char>> {
    match s {
        Some(s) => Some(s@),
        None => None,
    }
}

/// The text of an optional string slice.
pub open spec fn opt_str(s: Option<&str>) -> Option<Seq<char>> {
    match s {
        Some(s) => Some(s@),
        None => None,
    }
}

/// The contents of optional bytes.
pub open spec fn opt_bytes(b: Option<Vec<u8>>) -> Option<Seq<u8>> {
    match b {
        Some(b) => Some(b@),
        None => None,
    }
}

impl View for AppSession {
    type V = SessionView;

    open spec fn view(&self) -> SessionView {
        SessionView {
            id: self.id@,
            display_name: self.display_name@,
            icon_png: opt_bytes(self.icon_png),
            volume: self.volume,
            effective_volume: self.effective_volume,
            muted: self.muted,
            balance: self.balance,
            is_active: self.is_active,
            is_duck_trigger: self.is_duck_trigger,
            is_ducked: self.is_ducked,
            write_generation: self.write_generation,
            output_device_id: opt_text(self.output_device_id),
        }
    }
}

/// What the sessions of a list hold.
pub open spec fn session_views(sessions: Seq<AppSession>) -> Seq<SessionView> {
    sessions.map_values(|s: AppSession| s@)
}

pub fn copy_bytes(bytes: &Vec<u8>) -> (copy: Vec<u8>)
    ensures
        copy@ == bytes@,
{
    let copy = bytes.clone();
    assert(copy@ =~= bytes@);
    copy
}

pub fn copy_icon(icon: &Option<Vec<u8>>) -> (copy: Option<Vec<u8>>)
    ensures
        opt_bytes(copy) == opt_bytes(*icon),
{
    match icon {
        Some(bytes) => Some(copy_bytes(bytes)),
        None => None,
    }
}

pub fn copy_text(text: &Option<String>) -> (copy: Option<String>)
    ensures
        copy == *text,
{
    match text {
        Some(s) => Some(s.clone()),
        None => None,
    }
}

/// Whether two byte sequences are the same.
pub fn same_bytes(a: &Vec<u8>, b: &Vec<u8>) -> (same: bool)
    ensures
        same == (a@ == b@),
{
    if a.len() != b.len() {
        return false;
    }
    let mut i: usize = 0;
    while i < a.len()
        invariant
            a@.len() == b@.len(),
            i <= a@.len(),
            forall|k: int| 0 <= k < i ==> a@[k] == b@[k],
        decreases a@.len() - i,
    {
        if a[i] != b[i] {
            return false;
        }
        i += 1;
    }
    assert(a@ =~= b@);
    true
}

pub fn same_icon(a: &Option<Vec<u8>>, b: &Option<Vec<u8>>) -> (same: bool)
    ensures
        same == (opt_bytes(*a) == opt_bytes(*b)),
{
    match (a, b) {
        (Some(a), Some(b)) => same_bytes(a, b),
        (None, None) => true,
        _ => false,
    }
}

pub fn same_name(a: &Option<String>, b: &Option<String>) -> (same: bool)
    ensures
        same == (opt_text(*a) == opt_text(*b)),
{
    match (a, b) {
        (Some(a), Some(b)) => same_text(a, b),
        (None, None) => true,
        _ => false,
    }
}

impl Clone for AppSession {
    fn clone(&self) -> (copy: Self)
        ensures
            copy@ == self@,
    {
        AppSession {
            id: self.id.clone(),
            display_name: self.display_name.clone(),
            icon_png: copy_icon(&self.icon_png),
            volume: self.volume,
            effective_volume: self.effective_volume,
            muted: self.muted,
            balance: self.balance,
            is_active: self.is_active,
            is_duck_trigger: self.is_duck_trigger,
            is_ducked: self.is_ducked,
            write_generation: self.write_generation,
            output_device_id: copy_text(&self.output_device_id),
        }
    }
}

/// A device that sound can be routed to.
#[derive(Debug, PartialEq)]
pub struct OutputDevice {
    pub id: String,
    pub name: String,
}

impl Clone for OutputDevice {
    fn clone(&self) -> (copy: Self)
        ensures
            copy == *self,
    {
        OutputDevice { id: self.id.clone(), name: self.name.clone() }
    }
}

/// Why a request could not be carried out.
#[derive(Debug, PartialEq)]
pub enum MixerError {
    SessionNotFound(String),
    Platform(String),
}

impl Clone for MixerError {
    fn clone(&self) -> (copy: Self)
        ensures
            copy == *self,
    {
        match self {
            MixerError::SessionNotFound(id) => MixerError::SessionNotFound(id.clone()),
            MixerError::Platform(reason) => MixerError::Platform(reason.clone()),
        }
    }
}

/// What a `MixerError` holds.
pub enum MixerErrorView {
    SessionNotFound(Seq<char>),
    Platform(Seq<char>),
}

impl View for MixerError {
    type V = MixerErrorView;

    open spec fn view(&self) -> MixerErrorView {
        match *self {
            MixerError::SessionNotFound(id) => MixerErrorView::SessionNotFound(id@),
            MixerError::Platform(reason) => MixerErrorView::Platform(reason@),
        }
    }
}

/// The message that an error is shown with.
pub open spec fn error_message(e: MixerErrorView) -> Seq<char> {
    match e {
        MixerErrorView::SessionNotFound(id) => "no session found with id "@ + id,
        MixerErrorView::Platform(reason) => "platform audio API error: "@ + reason,
    }
}

/// The message that an error is shown with.
pub fn mixer_error_to_string(error: &MixerError) -> (message: String)
    ensures
        message@ == error_message(error@),
{
    match error {
        MixerError::SessionNotFound(id) => "no session found with id ".to_owned().concat(id),
        MixerError::Platform(reason) => "platform audio API error: ".to_owned().concat(reason),
    }
}

/// The error for an id that no session has.
pub fn session_not_found(session_id: &str) -> (error: MixerError)
    ensures
        error@ == MixerErrorView::SessionNotFound(session_id@),
{
    MixerError::SessionNotFound(session_id.to_owned())
}

pub fn platform_error(reason: &str) -> (error: MixerError)
    ensures
        error@ == MixerErrorView::Platform(reason@),
{
    MixerError::Platform(reason.to_owned())
}

/// The count of changes after `n`; it wraps around.
pub open spec fn next_generation(n: u64) -> u64 {
    if n == u64::MAX {
        0
    } else {
        (n + 1) as u64
    }
}

/// How often a session was changed.
pub open spec fn generation_of(generations: Map<Seq<char>, u64>, id: Seq<char>) -> u64 {
    if generations.dom().contains(id) {
        generations[id]
    } else {
        0
    }
}

/// The largest icon, in bytes, that is kept among the settings.
pub const MAX_CACHEABLE_ICON_BYTES: usize = 65_536;

/// The largest settings file, in bytes, that is read at all.
pub const MAX_SETTINGS_FILE_BYTES: u64 = 8 * 1024 * 1024;

/// Whether a settings file of this size is read. A larger one counts as missing, so
/// that it cannot hold up the start of the application.
pub fn settings_file_is_readable(size: u64) -> (readable: bool)
    ensures
        readable <==> size <= MAX_SETTINGS_FILE_BYTES,
{
    size <= MAX_SETTINGS_FILE_BYTES
}

/// A volume moved into the range from silence to full scale.
pub open spec fn clamped_volume(volume: Level) -> Level {
    volume.clamped(Level { bits: ZERO_BITS }, Level { bits: ONE_BITS })
}

pub fn clamp_volume(volume: Level) -> (clamped: Level)
    ensures
        clamped == clamped_volume(volume),
{
    volume.clamp_to(Level { bits: ZERO_BITS }, Level { bits: ONE_BITS })
}

/// A volume moved into the range from silence to one and a half times full scale.
pub open spec fn clamped_boosted_volume(volume: Level) -> Level {
    volume.clamped(Level { bits: ZERO_BITS }, Level { bits: BOOST_BITS })
}

pub fn clamp_boosted_volume(volume: Level) -> (clamped: Level)
    ensures
        clamped == clamped_boosted_volume(volume),
{
    volume.clamp_to(Level { bits: ZERO_BITS }, Level { bits: BOOST_BITS })
}

/// A balance moved into the range from full left to full right.
pub open spec fn clamped_balance(balance: Level) -> Level {
    balance.clamped(Level { bits: MINUS_ONE_BITS }, Level { bits: ONE_BITS })
}

pub fn clamp_balance(balance: Level) -> (clamped: Level)
    ensures
        clamped == clamped_balance(balance),
{
    balance.clamp_to(Level { bits: MINUS_ONE_BITS }, Level { bits: ONE_BITS })
}

/// Whether auto-duck runs, and the names of the applications that may trigger it. A
/// name that is not listed can be ducked but never ducks anything.
#[derive(Debug)]
pub struct DuckingSettings {
    pub enabled: bool,
    pub priority_triggers: Vec<String>,
    /// The icons of listed applications, as far as they have been seen active.
    pub priority_trigger_icons: NameMap<Vec<u8>>,
}

/// What `DuckingSettings` hold.
#[verifier::ext_equal]
pub struct SettingsView {
    pub enabled: bool,
    pub priority_triggers: Seq<Seq<char>>,
    pub icons: Map<Seq<char>, Seq<u8>>,
}

/// The contents of a map of byte sequences.
pub open spec fn byte_values(m: Map<Seq<char>, Vec<u8>>) -> Map<Seq<char>, Seq<u8>> {
    m.map_values(|v: Vec<u8>| v@)
}

impl View for DuckingSettings {
    type V = SettingsView;

    open spec fn view(&self) -> SettingsView {
        SettingsView {
            enabled: self.enabled,
            priority_triggers: texts(self.priority_triggers@),
            icons: byte_values(self.priority_trigger_icons@),
        }
    }
}

/// The settings before any have been saved.
pub open spec fn default_settings() -> SettingsView {
    SettingsView {
        enabled: false,
        priority_triggers: Seq::empty(),
        icons: Map::empty(),
    }
}

impl Default for DuckingSettings {
    fn default() -> (settings: Self)
        ensures
            settings@ == default_settings(),
    {
        let settings = DuckingSettings {
            enabled: false,
            priority_triggers: Vec::new(),
            priority_trigger_icons: NameMap::new(),
        };
        assert(settings@ =~= default_settings());
        settings
    }
}

/// A copy of a list of names.
pub fn copy_names(names: &Vec<String>) -> (copy: Vec<String>)
    ensures
        texts(copy@) == texts(names@),
{
    let mut copy: Vec<String> = Vec::new();
    let mut i: usize = 0;
    while i < names.len()
        invariant
            i <= names@.len(),
            copy@.len() == i,
            forall|k: int| 0 <= k < i ==> (#[trigger] copy@[k])@ == names@[k]@,
        decreases names@.len() - i,
    {
        copy.push(names[i].clone());
        i += 1;
    }
    assert(texts(copy@) =~= texts(names@));
    copy
}

fn copy_icons(icons: &NameMap<Vec<u8>>) -> (copy: NameMap<Vec<u8>>)
    ensures
        byte_values(copy@) == byte_values(icons@),
{
    let mut copy: NameMap<Vec<u8>> = NameMap::new();
    let n: usize = icons.len();
    let mut i: usize = 0;
    while i < n
        invariant
            i <= n == icons.keys().len(),
            icons.keys().no_duplicates(),
            forall|k: Seq<char>| icons.keys().contains(k) <==> icons@.dom().contains(k),
            forall|k: Seq<char>|
                copy@.dom().contains(k) <==> icons.keys().take(i as int).contains(k),
            forall|k: Seq<char>|
                #![trigger copy@[k]]
                #![trigger copy@.dom().contains(k)]
                copy@.dom().contains(k) ==> icons@.dom().contains(k) && copy@[k]@ == icons@[k]@,
        decreases n - i,
    {
        let ghost before = icons.keys().take(i as int);
        let ghost after = icons.keys().take(i + 1);
        let bytes = copy_bytes(icons.value_at(i));
        copy.insert(icons.key_at(i), bytes);
        proof {
            let key = icons.keys()[i as int];
            assert(after =~= before.push(key));
            lemma_push_members(before, key);
        }
        i += 1;
    }
    proof {
        assert(icons.keys().take(n as int) == icons.keys());
        assert forall|k: Seq<char>| #[trigger] byte_values(copy@).dom().contains(k) implies byte_values(
            copy@,
        )[k] == byte_values(icons@)[k] by {
            assert(copy@[k]@ == icons@[k]@);
        }
        assert(byte_values(copy@) =~= byte_values(icons@));
    }
    copy
}

impl Clone for DuckingSettings {
    fn clone(&self) -> (copy: Self)
        ensures
            copy@ == self@,
    {
        DuckingSettings {
            enabled: self.enabled,
            priority_triggers: copy_names(&self.priority_triggers),
            priority_trigger_icons: copy_icons(&self.priority_trigger_icons),
        }
    }
}

/// Being one of `names`.
pub open spec fn among(names: Seq<Seq<char>>) -> spec_fn(Seq<char>) -> bool {
    |name: Seq<char>| names.contains(name)
}

/// The well-known names that are also running names, in the order in which they are
/// well known.
pub open spec fn running_well_known(
    well_known: Seq<Seq<char>>,
    running: Seq<Seq<char>>,
) -> Seq<Seq<char>> {
    well_known.filter(among(running))
}

/// The texts of string slices.
pub open spec fn slice_texts(names: Seq<&str>) -> Seq<Seq<char>> {
    names.map_values(|n: &str| n@)
}

/// Appends the well-known applications that are running.
pub fn seed_priority_apps_from_well_known(
    priority_triggers: &mut Vec<String>,
    well_known_apps: &[&str],
    running_names: &Vec<String>,
)
    ensures
        texts(final(priority_triggers)@) == texts(old(priority_triggers)@) + running_well_known(
            slice_texts(well_known_apps@),
            texts(running_names@),
        ),
{
    let ghost known = slice_texts(well_known_apps@);
    let ghost running = texts(running_names@);
    let ghost p = among(running);
    let mut i: usize = 0;
    proof {
        lemma_filter_none(known, p);
        assert(texts(priority_triggers@) =~= texts(old(priority_triggers)@) + known.take(0).filter(
            p,
        ));
    }
    while i < well_known_apps.len()
        invariant
            i <= well_known_apps@.len(),
            known == slice_texts(well_known_apps@),
            running == texts(running_names@),
            p == among(running),
            texts(priority_triggers@) == texts(old(priority_triggers)@) + known.take(
                i as int,
            ).filter(p),
        decreases well_known_apps@.len() - i,
    {
        let name: &str = well_known_apps[i];
        proof {
            lemma_filter_take(known, p, i as int);
        }
        if listed(running_names, name) {
            let ghost before = priority_triggers@;
            priority_triggers.push(name.to_owned());
            proof {
                assert(texts(priority_triggers@) =~= texts(before).push(name@));
                assert(texts(priority_triggers@) =~= texts(old(priority_triggers)@) + known.take(
                    i + 1,
                ).filter(p));
            }
        }
        i += 1;
    }
    assert(known.take(known.len() as int) == known);
}

/// Being another name.
pub open spec fn other_than(name: Seq<char>) -> spec_fn(Seq<char>) -> bool {
    |n: Seq<char>| n != name
}

/// The settings after a name was added to the triggers or removed from them.
pub open spec fn toggled(
    settings: SettingsView,
    name: Seq<char>,
    is_priority: bool,
) -> SettingsView {
    if is_priority {
        if settings.priority_triggers.contains(name) {
            settings
        } else {
            SettingsView { priority_triggers: settings.priority_triggers.push(name), ..settings }
        }
    } else {
        SettingsView {
            priority_triggers: settings.priority_triggers.filter(other_than(name)),
            icons: settings.icons.remove(name),
            ..settings
        }
    }
}

fn remove_name(names: &mut Vec<String>, name: &str)
    ensures
        texts(final(names)@) == texts(old(names)@).filter(other_than(name@)),
{
    let ghost all = texts(names@);
    let ghost p = other_than(name@);
    let mut rest: Vec<String> = Vec::new();
    std::mem::swap(&mut rest, names);
    let ghost mut done: int = 0;
    proof {
        lemma_filter_none(all, p);
        assert(texts(names@) =~= Seq::empty());
        assert(all.skip(0) == all);
    }
    while rest.len() > 0
        invariant
            0 <= done <= all.len(),
            texts(rest@) == all.skip(done),
            p == other_than(name@),
            texts(names@) == all.take(done).filter(p),
        decreases rest@.len(),
    {
        let ghost rest_before = rest@;
        let ghost names_before = names@;
        let first = rest.remove(0);
        proof {
            assert(texts(rest_before)[0] == first@);
            assert(texts(rest_before).len() > 0);
            assert(all.skip(done)[0] == all[done]);
            lemma_filter_take(all, p, done);
            assert(texts(rest@) =~= texts(rest_before).skip(1));
            assert(all.skip(done).skip(1) == all.skip(done + 1));
        }
        if !same_text(&first, name) {
            names.push(first);
            assert(texts(names@) =~= texts(names_before).push(first@));
        }
        proof {
            done = done + 1;
        }
    }
    assert(texts(rest@).len() == 0);
    assert(all.take(done) == all);
}

/// Adds a name to the triggers, if it is not among them, or removes it, and then its
/// icon too.
pub fn toggle_priority_trigger(
    settings: &mut DuckingSettings,
    display_name: &str,
    is_priority: bool,
)
    ensures
        final(settings)@ == toggled(old(settings)@, display_name@, is_priority),
{
    let already_present = listed(&settings.priority_triggers, display_name);
    if is_priority && !already_present {
        let ghost before = settings.priority_triggers@;
        settings.priority_triggers.push(display_name.to_owned());
        assert(texts(settings.priority_triggers@) =~= texts(before).push(display_name@));
    } else if !is_priority {
        let ghost before = settings.priority_trigger_icons@;
        remove_name(&mut settings.priority_triggers, display_name);
        settings.priority_trigger_icons.remove(display_name);
        assert(byte_values(before.remove(display_name@)) =~= byte_values(before).remove(
            display_name@,
        ));
    }
}

/// A name that was added is among the triggers.
pub proof fn law_added_name_is_a_trigger(settings: SettingsView, name: Seq<char>)
    ensures
        toggled(settings, name, true).priority_triggers.contains(name),
{
    let after = settings.priority_triggers.push(name);
    assert(after[settings.priority_triggers.len() as int] == name);
}

/// A name that was removed is no trigger, and no icon is kept for it.
pub proof fn law_removed_name_leaves_nothing(settings: SettingsView, name: Seq<char>)
    ensures
        !toggled(settings, name, false).priority_triggers.contains(name),
        !toggled(settings, name, false).icons.dom().contains(name),
{
    lemma_filter_members(settings.priority_triggers, other_than(name));
}

/// Adding or removing a name leaves every other name as it was, and whether the
/// feature runs.
pub proof fn law_toggle_keeps_the_others(
    settings: SettingsView,
    name: Seq<char>,
    is_priority: bool,
    other: Seq<char>,
)
    requires
        other != name,
    ensures
        toggled(settings, name, is_priority).enabled == settings.enabled,
        toggled(settings, name, is_priority).priority_triggers.contains(other)
            == settings.priority_triggers.contains(other),
        toggled(settings, name, is_priority).icons.dom().contains(other)
            == settings.icons.dom().contains(other),
        settings.icons.dom().contains(other) ==> toggled(settings, name, is_priority).icons[other]
            == settings.icons[other],
{
    let before = settings.priority_triggers;
    if is_priority {
        lemma_push_members(before, name);
        assert(before.push(name).contains(other) == before.contains(other));
    } else {
        let p = other_than(name);
        lemma_filter_members(before, p);
        assert(before.filter(p).contains(other) == before.contains(other));
    }
}

/// Adding or removing a name a second time changes nothing.
pub proof fn law_toggle_is_idempotent(settings: SettingsView, name: Seq<char>, is_priority: bool)
    ensures
        toggled(toggled(settings, name, is_priority), name, is_priority) == toggled(
            settings,
            name,
            is_priority,
        ),
{
    let once = toggled(settings, name, is_priority);
    if is_priority {
        law_added_name_is_a_trigger(settings, name);
    } else {
        let p = other_than(name);
        lemma_filter_members(settings.priority_triggers, p);
        assert forall|i: int| 0 <= i < once.priority_triggers.len() implies p(
            #[trigger] once.priority_triggers[i],
        ) by {
            assert(once.priority_triggers.contains(once.priority_triggers[i]));
        }
        lemma_filter_of_all(once.priority_triggers, p);
        assert(once.priority_triggers.filter(p) == once.priority_triggers);
        assert(once.icons.remove(name) =~= once.icons);
    }
}

/// The names of communication applications that auto-duck starts out with, where
/// they are running.
pub open spec fn well_known_names() -> Seq<Seq<char>> {
    seq![
        "WhatsApp"@,
        "Zoom"@,
        "Discord"@,
        "FaceTime"@,
        "Microsoft Teams"@,
        "Slack"@,
        "Messages"@,
        "Skype"@,
        "Telegram"@,
        "Signal"@,
    ]
}

/// Fills the triggers with the communication applications among the running ones.
pub fn seed_communication_apps(settings: &mut DuckingSettings, running_names: &Vec<String>)
    ensures
        final(settings)@ == (SettingsView {
            priority_triggers: old(settings)@.priority_triggers + running_well_known(
                well_known_names(),
                texts(running_names@),
            ),
            ..old(settings)@
        }),
{
    let known: [&str; 10] = [
        "WhatsApp",
        "Zoom",
        "Discord",
        "FaceTime",
        "Microsoft Teams",
        "Slack",
        "Messages",
        "Skype",
        "Telegram",
        "Signal",
    ];
    assert(slice_texts(known@) =~= well_known_names());
    seed_priority_apps_from_well_known(
        &mut settings.priority_triggers,
        known.as_slice(),
        running_names,
    );
}

/// Whether turning auto-duck on or off asks for triggers: it is turned on, was off before,
/// and no trigger is listed.
pub open spec fn asks_for_triggers(settings: SettingsView, enabled: bool) -> bool {
    enabled && !settings.enabled && settings.priority_triggers.len() == 0
}

/// Turns auto-duck on or off. The result says whether the triggers should be filled
/// with the communication applications that are running: when it is turned on and
/// no trigger is listed.
pub fn set_enabled(settings: &mut DuckingSettings, enabled: bool) -> (should_seed: bool)
    ensures
        final(settings)@ == (SettingsView { enabled: enabled, ..old(settings)@ }),
        should_seed == asks_for_triggers(old(settings)@, enabled),
{
    let was_enabled = settings.enabled;
    settings.enabled = enabled;
    enabled && !was_enabled && settings.priority_triggers.len() == 0
}

/// Whether an icon is new for an application that may trigger ducking and is active, and
/// small enough to keep.
pub open spec fn icon_is_new(
    settings: SettingsView,
    name: Seq<char>,
    icon: Option<Seq<u8>>,
    is_active: bool,
) -> bool {
    match icon {
        Some(bytes) => {
            &&& is_active
            &&& bytes.len() <= MAX_CACHEABLE_ICON_BYTES
            &&& settings.priority_triggers.contains(name)
            &&& !(settings.icons.dom().contains(name) && settings.icons[name] == bytes)
        },
        None => false,
    }
}

/// The settings, with the icon of an application that may trigger ducking and is active.
pub open spec fn icon_kept(
    settings: SettingsView,
    name: Seq<char>,
    icon: Option<Seq<u8>>,
    is_active: bool,
) -> SettingsView {
    if icon_is_new(settings, name, icon, is_active) {
        SettingsView { icons: settings.icons.insert(name, icon.unwrap()), ..settings }
    } else {
        settings
    }
}

/// Keeps the icon of an application that may trigger ducking, if it is a new one and the
/// application is active.
pub fn keep_icon(
    settings: &mut DuckingSettings,
    name: &str,
    icon: &Option<Vec<u8>>,
    is_active: bool,
) -> (changed: bool)
    ensures
        changed == icon_is_new(old(settings)@, name@, opt_bytes(*icon), is_active),
        final(settings)@ == icon_kept(old(settings)@, name@, opt_bytes(*icon), is_active),
{
    if !is_active {
        return false;
    }
    let bytes = match icon {
        Some(bytes) => bytes,
        None => return false,
    };
    if bytes.len() > MAX_CACHEABLE_ICON_BYTES || !listed(&settings.priority_triggers, name) {
        return false;
    }
    let known = match settings.priority_trigger_icons.get(name) {
        Some(kept) => same_bytes(kept, bytes),
        None => false,
    };
    if known {
        return false;
    }
    let copy = copy_bytes(bytes);
    let ghost before = settings.priority_trigger_icons@;
    settings.priority_trigger_icons.insert(name, copy);
    assert(byte_values(before.insert(name@, copy)) =~= byte_values(
        before,
    ).insert(name@, copy@));
    true
}

/// Whether icons are kept of listed applications only, and none that is too large.
pub open spec fn icons_are_of_triggers(settings: SettingsView) -> bool {
    forall|name: Seq<char>| #[trigger]
        settings.icons.dom().contains(name) ==> settings.priority_triggers.contains(name)
            && settings.icons[name].len() <= MAX_CACHEABLE_ICON_BYTES
}

/// Whatever is done to the settings, icons are kept of listed applications only, and none
/// that is too large. So what is saved stays small.
pub proof fn law_icons_are_of_triggers(
    settings: SettingsView,
    name: Seq<char>,
    icon: Option<Seq<u8>>,
    is_active: bool,
    is_priority: bool,
    more: Seq<Seq<char>>,
)
    requires
        icons_are_of_triggers(settings),
    ensures
        icons_are_of_triggers(default_settings()),
        icons_are_of_triggers(icon_kept(settings, name, icon, is_active)),
        icons_are_of_triggers(toggled(settings, name, is_priority)),
        icons_are_of_triggers(
            SettingsView { priority_triggers: settings.priority_triggers + more, ..settings },
        ),
{
    let triggers = settings.priority_triggers;
    assert forall|other: Seq<char>| #[trigger]
        toggled(settings, name, is_priority).icons.dom().contains(other) implies toggled(
        settings,
        name,
        is_priority,
    ).priority_triggers.contains(other) && toggled(settings, name, is_priority).icons[other].len()
        <= MAX_CACHEABLE_ICON_BYTES by {
        assert(settings.icons.dom().contains(other));
        if other == name {
            law_added_name_is_a_trigger(settings, name);
        } else {
            law_toggle_keeps_the_others(settings, name, is_priority, other);
        }
    }
    let longer = triggers + more;
    assert forall|other: Seq<char>| #[trigger]
        settings.icons.dom().contains(other) implies longer.contains(other) by {
        let i = choose|i: int| 0 <= i < triggers.len() && triggers[i] == other;
        assert(longer[i] == other);
    }
}

/// An application that is not active leaves the settings as they are. So there is no icon
/// of a trigger that was never seen active since it was added.
pub proof fn law_icon_is_of_an_active_application(
    settings: SettingsView,
    name: Seq<char>,
    icon: Option<Seq<u8>>,
    is_active: bool,
    other: Seq<char>,
)
    ensures
        icon_kept(settings, name, icon, false) == settings,
        icon_kept(settings, name, icon, is_active).icons.dom().contains(other)
            && !settings.icons.dom().contains(other) ==> is_active && other == name,
{
}

/// One running application.
#[derive(Debug)]
pub struct RunningAppInfo {
    pub name: String,
}

impl Clone for RunningAppInfo {
    fn clone(&self) -> (copy: Self)
        ensures
            copy == *self,
    {
        RunningAppInfo { name: self.name.clone() }
    }
}

/// The output devices that applications were routed to, by display name.
#[derive(Debug)]
pub struct OutputRoutingSettings {
    pub by_app_name: NameMap<String>,
}

impl Default for OutputRoutingSettings {
    fn default() -> (settings: Self)
        ensures
            settings.by_app_name@ == Map::<Seq<char>, String>::empty(),
            settings.by_app_name.keys().len() == 0,
    {
        OutputRoutingSettings { by_app_name: NameMap::new() }
    }
}

} // verus!
