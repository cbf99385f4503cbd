//! What holds of volumes and settings, whatever is done to them.

use vstd::prelude::*;

use crate::level::Level;
use crate::name_map::texts;
use crate::seqs::{lemma_filter_members, lemma_push_members};
use crate::session::{
    among, asks_for_triggers, clamped_balance, clamped_boosted_volume, clamped_volume,
    default_settings, error_message, generation_of, icon_is_new, icon_kept,
    law_added_name_is_a_trigger, next_generation, opt_bytes, opt_str, opt_text, other_than,
    running_well_known, session_views, slice_texts, toggled, well_known_names, AppSession,
    DuckingSettings, MixerError, MixerErrorView, SettingsView,
};

verus! {

/// Whether `inner` holds what `value` is moved to in `low..=high`, by rank: what is too low
/// is moved up to the lower end, what is too high down to the upper one, and what lies
/// between stays exactly as it is.
pub open spec fn moved_into(value: Level, inner: Level, low: int, high: int) -> bool {
    &&& value.rank() < low ==> inner.rank() == low
    &&& value.rank() > high ==> inner.rank() == high
    &&& low <= value.rank() <= high ==> inner == value
    &&& low <= inner.rank() <= high
}

/// Volumes are held between silence and full scale, boosted ones up to one and a half times
/// of it, and balances between the two sides. What is in range stays exactly as it is, and
/// what is not a number stays so.
pub proof fn law_what_is_set_is_held_in_range(value: Level)
    ensures
        !value.is_nan() ==> {
            &&& moved_into(value, clamped_volume(value), 0, 0x3f80_0000)
            &&& moved_into(value, clamped_boosted_volume(value), 0, 0x3fc0_0000)
            &&& moved_into(value, clamped_balance(value), -0x3f80_0000, 0x3f80_0000)
        },
        value.is_nan() ==> clamped_volume(value) == value && clamped_boosted_volume(value) == value
            && clamped_balance(value) == value,
{
}

/// Numbers are ordered by their rank, which is that of the bits for what has no sign.
pub proof fn law_ranks_order_numbers(a: Level, b: Level)
    ensures
        a.bits < 0x8000_0000 && b.bits < 0x8000_0000 ==> (a.rank() < b.rank() <==> a.bits < b.bits),
        a.bits >= 0x8000_0000 && b.bits >= 0x8000_0000 ==> (a.rank() < b.rank() <==> a.bits
            > b.bits),
        a.bits >= 0x8000_0000 && b.bits < 0x8000_0000 ==> a.rank() <= b.rank(),
        a.less(b) <==> !a.is_nan() && !b.is_nan() && a.rank() < b.rank(),
        a.same(b) <==> !a.is_nan() && !b.is_nan() && a.rank() == b.rank(),
        a.is_nan() <==> (0x7f80_0000 < a.bits < 0x8000_0000 || a.bits > 0xff80_0000),
{
}

/// The icon of a listed application that is active and has one of at most 65,536 bytes is
/// kept from then on, in place of any other; nothing else of the settings changes. They
/// change at all only if the icon was not the one that is kept already.
pub proof fn law_the_icon_of_a_trigger_is_kept(
    settings: SettingsView,
    name: Seq<char>,
    icon: Seq<u8>,
    is_active: bool,
)
    ensures
        ({
            let after = icon_kept(settings, name, Some(icon), is_active);
            let keeps = is_active && settings.priority_triggers.contains(name) && icon.len()
                <= 65_536;
            &&& after.enabled == settings.enabled
            &&& after.priority_triggers == settings.priority_triggers
            &&& keeps ==> after.icons.dom().contains(name) && after.icons[name] == icon
            &&& !keeps ==> after == settings
            &&& forall|other: Seq<char>|
                other != name ==> (#[trigger] after.icons.dom().contains(other)
                    <==> settings.icons.dom().contains(other))
            &&& forall|other: Seq<char>|
                other != name && settings.icons.dom().contains(other) ==> #[trigger]
                after.icons[other] == settings.icons[other]
            &&& icon_is_new(settings, name, Some(icon), is_active) <==> after != settings
        }),
        icon_kept(settings, name, None, is_active) == settings,
        !icon_is_new(settings, name, None, is_active),
{
    let after = icon_kept(settings, name, Some(icon), is_active);
    if icon_is_new(settings, name, Some(icon), is_active) {
        assert(after.icons.dom().contains(name) && after.icons[name] == icon);
    }
}

/// A name that is added goes to the end of the list, once; those before it and all icons
/// stay. A name that is removed goes, and the others keep their order.
pub proof fn law_the_list_of_triggers_keeps_its_order(settings: SettingsView, name: Seq<char>)
    ensures
        ({
            let before = settings.priority_triggers;
            let added = toggled(settings, name, true);
            let removed = toggled(settings, name, false).priority_triggers;
            &&& added.icons == settings.icons
            &&& added.priority_triggers.take(before.len() as int) == before
            &&& added.priority_triggers.len() == before.len() + if before.contains(name) {
                0int
            } else {
                1
            }
            &&& before.no_duplicates() ==> added.priority_triggers.no_duplicates()
            &&& removed.len() <= before.len()
            &&& !before.contains(name) ==> removed == before
            &&& forall|k: int|
                before.no_duplicates() && 0 <= k < before.len() && before[k] == name
                    ==> removed == #[trigger] before.remove(k)
        }),
{
    let before = settings.priority_triggers;
    let added = toggled(settings, name, true).priority_triggers;
    assert(before.take(before.len() as int) =~= before);
    assert(before.push(name).take(before.len() as int) =~= before);
    lemma_push_members(before, name);
    if before.no_duplicates() && !before.contains(name) {
        assert forall|i: int, j: int|
            0 <= i < added.len() && 0 <= j < added.len() && i != j implies added[i] != added[j] by {
            if i < before.len() {
                assert(before.contains(before[i]));
            }
            if j < before.len() {
                assert(before.contains(before[j]));
            }
        }
    }
    lemma_filter_shorter(before, name);
    if before.no_duplicates() {
        assert forall|k: int| 0 <= k < before.len() && before[k] == name implies #[trigger]
        before.remove(k) == before.filter(other_than(name)) by {
            lemma_filter_one(before, name, k);
        }
    }
}

proof fn lemma_filter_shorter(names: Seq<Seq<char>>, name: Seq<char>)
    ensures
        names.filter(other_than(name)).len() <= names.len(),
        !names.contains(name) ==> names.filter(other_than(name)) == names,
    decreases names.len(),
{
    reveal(Seq::filter);
    if names.len() > 0 {
        let init = names.drop_last();
        lemma_filter_shorter(init, name);
        if !names.contains(name) {
            assert(!init.contains(name)) by {
                if init.contains(name) {
                    let k = choose|k: int| 0 <= k < init.len() && init[k] == name;
                    assert(names[k] == name);
                }
            }
            assert(names[names.len() - 1] != name);
            assert(init.push(names.last()) =~= names);
        }
    } else {
        assert(names.filter(other_than(name)) =~= names);
    }
}

proof fn lemma_filter_one(names: Seq<Seq<char>>, name: Seq<char>, k: int)
    requires
        names.no_duplicates(),
        0 <= k < names.len(),
        names[k] == name,
    ensures
        names.filter(other_than(name)) == names.remove(k),
    decreases names.len(),
{
    reveal(Seq::filter);
    let init = names.drop_last();
    if k == names.len() - 1 {
        assert(!init.contains(name)) by {
            if init.contains(name) {
                let i = choose|i: int| 0 <= i < init.len() && init[i] == name;
                assert(names[i] == names[k]);
            }
        }
        lemma_filter_shorter(init, name);
        assert(names.remove(k) =~= init);
    } else {
        lemma_filter_one(init, name, k);
        assert(names.last() != name) by {
            assert(names[names.len() - 1] != names[k]);
        }
        assert(names.remove(k) =~= init.remove(k).push(names.last()));
    }
}

/// Exactly the well-known applications that are running are added, in the order in which
/// they are well known.
pub proof fn law_what_is_seeded(well_known: Seq<Seq<char>>, running: Seq<Seq<char>>)
    ensures
        forall|name: Seq<char>| #[trigger]
            running_well_known(well_known, running).contains(name) <==> well_known.contains(name)
                && running.contains(name),
        running_well_known(well_known, running).len() <= well_known.len(),
        (forall|i: int| 0 <= i < well_known.len() ==> running.contains(#[trigger] well_known[i]))
            ==> running_well_known(well_known, running) == well_known,
        forall|more: Seq<char>|
            running_well_known(well_known.push(more), running) == (if #[trigger] running.contains(
                more,
            ) {
                running_well_known(well_known, running).push(more)
            } else {
                running_well_known(well_known, running)
            }),
{
    lemma_filter_members(well_known, among(running));
    assert forall|name: Seq<char>| #[trigger]
        running_well_known(well_known, running).contains(name) <==> well_known.contains(name)
            && running.contains(name) by {
        assert(among(running)(name) == running.contains(name));
    }
    lemma_filter_of_running(well_known, running);
    assert forall|more: Seq<char>|
        running_well_known(well_known.push(more), running) == (if #[trigger] running.contains(
            more,
        ) {
            running_well_known(well_known, running).push(more)
        } else {
            running_well_known(well_known, running)
        }) by {
        reveal(Seq::filter);
        assert(well_known.push(more).drop_last() =~= well_known);
    }
}

proof fn lemma_filter_of_running(well_known: Seq<Seq<char>>, running: Seq<Seq<char>>)
    ensures
        running_well_known(well_known, running).len() <= well_known.len(),
        (forall|i: int| 0 <= i < well_known.len() ==> running.contains(#[trigger] well_known[i]))
            ==> running_well_known(well_known, running) == well_known,
    decreases well_known.len(),
{
    reveal(Seq::filter);
    if well_known.len() > 0 {
        let init = well_known.drop_last();
        lemma_filter_of_running(init, running);
        if forall|i: int| 0 <= i < well_known.len() ==> running.contains(#[trigger] well_known[i]) {
            assert forall|i: int| 0 <= i < init.len() implies running.contains(
                #[trigger] init[i],
            ) by {
                assert(init[i] == well_known[i]);
            }
            assert(running.contains(well_known[well_known.len() - 1]));
            assert(init.push(well_known.last()) =~= well_known);
        }
    } else {
        assert(running_well_known(well_known, running) =~= well_known);
    }
}

/// Adding a name and removing it again leaves the list as it was, if it was not listed.
pub proof fn law_removing_undoes_adding(settings: SettingsView, name: Seq<char>)
    requires
        !settings.priority_triggers.contains(name),
        !settings.icons.dom().contains(name),
    ensures
        toggled(toggled(settings, name, true), name, false) == settings,
{
    let added = toggled(settings, name, true);
    law_added_name_is_a_trigger(settings, name);
    lemma_filter_shorter(settings.priority_triggers, name);
    reveal(Seq::filter);
    assert(added.priority_triggers.drop_last() =~= settings.priority_triggers);
    assert(settings.icons.remove(name) =~= settings.icons);
}

/// What an error says: that no session has the id, or what the system's audio interface
/// reported.
pub proof fn law_what_errors_say(text: String)
    ensures
        error_message(MixerError::SessionNotFound(text)@) == "no session found with id "@ + text@,
        error_message(MixerError::Platform(text)@) == "platform audio API error: "@ + text@,
        MixerError::SessionNotFound(text)@ == MixerErrorView::SessionNotFound(text@),
        MixerError::Platform(text)@ == MixerErrorView::Platform(text@),
{
}

/// Changes are counted from none on, one by one, and start over behind the largest number.
pub proof fn law_how_changes_are_counted(
    generations: Map<Seq<char>, u64>,
    id: Seq<char>,
    n: u64,
)
    ensures
        n < u64::MAX ==> next_generation(n) == n + 1,
        next_generation(u64::MAX) == 0,
        generation_of(generations.insert(id, n), id) == n,
        !generations.dom().contains(id) ==> generation_of(generations, id) == 0,
{
}

/// What settings hold is what their fields hold, and before any are saved ducking is off and
/// nothing is listed.
pub proof fn law_settings_show_their_fields(settings: DuckingSettings)
    ensures
        settings@.enabled == settings.enabled,
        settings@.priority_triggers.len() == settings.priority_triggers@.len(),
        forall|i: int|
            0 <= i < settings.priority_triggers@.len() ==> #[trigger] settings@.priority_triggers[i]
                == settings.priority_triggers@[i]@,
        settings@.icons.dom() == settings.priority_trigger_icons@.dom(),
        forall|name: Seq<char>| #[trigger]
            settings@.icons.dom().contains(name) ==> settings@.icons[name]
                == settings.priority_trigger_icons@[name]@,
        !default_settings().enabled,
        default_settings().priority_triggers.len() == 0,
        forall|name: Seq<char>| !#[trigger] default_settings().icons.dom().contains(name),
{
    assert(settings@.icons.dom() =~= settings.priority_trigger_icons@.dom());
}

/// Turning auto-duck on asks for triggers if it was off and none are listed; turning it on
/// again, turning it off, or turning it on with some listed does not.
pub proof fn law_when_triggers_are_asked_for(settings: SettingsView, name: Seq<char>)
    ensures
        !asks_for_triggers(settings, false),
        !asks_for_triggers((SettingsView { enabled: true, ..settings }), true),
        settings.priority_triggers.contains(name) ==> !asks_for_triggers(settings, true),
        settings.priority_triggers == Seq::<Seq<char>>::empty() && !settings.enabled
            ==> asks_for_triggers(settings, true),
{
}

/// The applications that are made triggers to start out with, in this order, and no others:
/// one that is running is added exactly if it is among these ten.
pub proof fn law_who_is_well_known(running: Seq<Seq<char>>, name: Seq<char>)
    ensures
        well_known_names().len() == 10,
        running_well_known(well_known_names(), running).contains(name) <==> running.contains(name)
            && (name == "WhatsApp"@ || name == "Zoom"@ || name == "Discord"@ || name == "FaceTime"@
            || name == "Microsoft Teams"@ || name == "Slack"@ || name == "Messages"@ || name
            == "Skype"@ || name == "Telegram"@ || name == "Signal"@),
{
    let known = well_known_names();
    lemma_filter_members(known, among(running));
    assert(known[0] == "WhatsApp"@ && known[1] == "Zoom"@ && known[2] == "Discord"@);
    assert(known[3] == "FaceTime"@ && known[4] == "Microsoft Teams"@ && known[5] == "Slack"@);
    assert(known[6] == "Messages"@ && known[7] == "Skype"@ && known[8] == "Telegram"@);
    assert(known[9] == "Signal"@);
    assert(known.contains(known[0]) && known.contains(known[1]) && known.contains(known[2]));
    assert(known.contains(known[3]) && known.contains(known[4]) && known.contains(known[5]));
    assert(known.contains(known[6]) && known.contains(known[7]) && known.contains(known[8]));
    assert(known.contains(known[9]));
    assert(known.filter(among(running)).contains(name) <==> known.contains(name)
        && running.contains(name));
}

/// An optional text or byte sequence holds exactly what it is made of.
pub proof fn law_what_optional_values_hold(text: String, part: &str, bytes: Vec<u8>)
    ensures
        opt_text(Some(text)) == Some(text@),
        opt_text(None) is None,
        opt_str(Some(part)) == Some(part@),
        opt_str(None) is None,
        opt_bytes(Some(bytes)) == Some(bytes@),
        opt_bytes(None) is None,
{
}

/// Lists hold their elements, each in its place.
pub proof fn law_lists_hold_their_elements(
    names: Seq<String>,
    parts: Seq<&str>,
    sessions: Seq<AppSession>,
)
    ensures
        texts(names).len() == names.len(),
        forall|i: int| 0 <= i < names.len() ==> #[trigger] texts(names)[i] == names[i]@,
        slice_texts(parts).len() == parts.len(),
        forall|i: int| 0 <= i < parts.len() ==> #[trigger] slice_texts(parts)[i] == parts[i]@,
        session_views(sessions).len() == sessions.len(),
        forall|i: int|
            0 <= i < sessions.len() ==> #[trigger] session_views(sessions)[i] == sessions[i]@,
{
}

} // verus!
