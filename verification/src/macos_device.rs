//! The audio devices and taps that the macOS engine is made of.

use vstd::prelude::*;

use crate::name_map::texts;
use crate::session::{platform_error, MixerError, MixerErrorView};
use crate::text::{hexadecimal, push_hexadecimal, push_signed, signed_decimal};

verus! {

/// The message for a call of the audio system that failed.
pub open spec fn status_message(what: Seq<char>, status: i32) -> Seq<char> {
    what + " failed with OSStatus "@ + signed_decimal(status as int)
}

/// What a status of the audio system means: zero is success.
pub fn check_status(status: i32, what: &str) -> (result: Result<(), MixerError>)
    ensures
        match result {
            Ok(()) => status == 0,
            Err(e) => status != 0 && e@ == MixerErrorView::Platform(status_message(what@, status)),
        },
{
    if status == 0 {
        Ok(())
    } else {
        let mut message = what.to_owned().concat(" failed with OSStatus ");
        push_signed(&mut message, status);
        Err(MixerError::Platform(message))
    }
}

/// The tap that was created, given the status and its id.
pub fn created_tap(status: i32, tap_id: u32, label: &str) -> (tap: Result<u32, MixerError>)
    ensures
        match tap {
            Ok(id) => status == 0 && tap_id != 0 && id == tap_id,
            Err(e) => if status != 0 {
                e@ == MixerErrorView::Platform(
                    status_message("AudioHardwareCreateProcessTap"@, status),
                )
            } else {
                tap_id == 0 && e@ == MixerErrorView::Platform(
                    "AudioHardwareCreateProcessTap returned kAudioObjectUnknown for "@ + label@,
                )
            },
        },
{
    match check_status(status, "AudioHardwareCreateProcessTap") {
        Ok(()) => {},
        Err(e) => return Err(e),
    }
    if tap_id == 0 {
        return Err(
            MixerError::Platform(
                "AudioHardwareCreateProcessTap returned kAudioObjectUnknown for ".to_owned().concat(
                    label,
                ),
            ),
        );
    }
    Ok(tap_id)
}

/// The name of the tap for a session.
pub fn tap_name(session_id: &str) -> (name: String)
    ensures
        name@ == "MiXolume."@ + session_id@,
{
    "MiXolume.".to_owned().concat(session_id)
}

/// A text that is different each time, made from the time in nanoseconds.
pub fn uuid_v4_ish(nanos: u128) -> (text: String)
    ensures
        text@ == hexadecimal(nanos as nat),
{
    let mut text = String::new();
    push_hexadecimal(&mut text, nanos);
    assert(text@ =~= hexadecimal(nanos as nat));
    text
}

/// One tap of an aggregate device.
#[derive(Debug, PartialEq)]
pub struct SubTap {
    pub uid: String,
    pub drift_compensation: bool,
}

/// The device that all taps are captured through.
#[derive(Debug, PartialEq)]
pub struct AggregateDescription {
    pub uid: String,
    pub name: String,
    pub is_private: bool,
    pub is_stacked: bool,
    /// The device that gives the clock.
    pub main_sub_device: String,
    pub tap_autostart: bool,
    pub sub_devices: Vec<String>,
    pub taps: Vec<SubTap>,
}

pub open spec fn tap_uids(taps: Seq<SubTap>) -> Seq<Seq<char>> {
    taps.map_values(|t: SubTap| t.uid@)
}

/// The uids, if every tap has one.
pub open spec fn all_uids(uids: Seq<Option<String>>) -> Option<Seq<Seq<char>>> {
    if forall|i: int| 0 <= i < uids.len() ==> (#[trigger] uids[i]) is Some {
        Some(uids.map_values(|u: Option<String>| u.unwrap()@))
    } else {
        None
    }
}

/// Describes the device that captures the given taps: private, clocked by the output
/// device, with every tap drift compensated and started with the device. A tap without
/// a uid cannot be part of it.
pub fn build_aggregate_description(
    output_device_uid: &str,
    uids: &Vec<Option<String>>,
    nanos: u128,
) -> (result: Result<AggregateDescription, MixerError>)
    ensures
        match result {
            Ok(d) => {
                &&& d.uid@ == "com.mixolume.aggregate."@ + hexadecimal(nanos as nat)
                &&& d.name@ == "MiXolume Capture"@
                &&& d.is_private && !d.is_stacked && d.tap_autostart
                &&& d.main_sub_device@ == output_device_uid@
                &&& texts(d.sub_devices@) == seq![output_device_uid@]
                &&& all_uids(uids@) == Some(tap_uids(d.taps@))
                &&& forall|i: int|
                    0 <= i < d.taps@.len() ==> (#[trigger] d.taps@[i]).drift_compensation
            },
            Err(e) => all_uids(uids@) is None && e@ == MixerErrorView::Platform(
                "tap has no kAudioTapPropertyUID -- cannot add it to the aggregate"@,
            ),
        },
{
    let mut taps: Vec<SubTap> = Vec::new();
    let mut i: usize = 0;
    while i < uids.len()
        invariant
            i <= uids@.len(),
            taps@.len() == i,
            forall|k: int| 0 <= k < i ==> (#[trigger] uids@[k]) is Some,
            forall|k: int|
                0 <= k < i ==> (#[trigger] taps@[k]).uid@ == uids@[k].unwrap()@
                    && taps@[k].drift_compensation,
        decreases uids@.len() - i,
    {
        match &uids[i] {
            Some(uid) => taps.push(SubTap { uid: uid.clone(), drift_compensation: true }),
            None => {
                assert(!(uids@[i as int] is Some));
                return Err(
                    platform_error(
                        "tap has no kAudioTapPropertyUID -- cannot add it to the aggregate",
                    ),
                );
            },
        }
        i += 1;
    }
    assert(tap_uids(taps@) =~= all_uids(uids@).unwrap());
    let sub_devices: Vec<String> = vec![output_device_uid.to_owned()];
    assert(texts(sub_devices@) =~= seq![output_device_uid@]);
    let description = AggregateDescription {
        uid: "com.mixolume.aggregate.".to_owned().concat(&uuid_v4_ish(nanos)),
        name: "MiXolume Capture".to_owned(),
        is_private: true,
        is_stacked: false,
        main_sub_device: output_device_uid.to_owned(),
        tap_autostart: true,
        sub_devices,
        taps,
    };
    Ok(description)
}

/// Asks for the permission to record sound, once.
#[derive(Clone, Copy, Debug, PartialEq, Eq, Structural)]
pub struct PermissionGate {
    pub request_sent: bool,
}

impl PermissionGate {
    pub fn new() -> (gate: Self)
        ensures
            !gate.request_sent,
    {
        PermissionGate { request_sent: false }
    }

    /// Whether to ask for the permission now: it is not granted, and was not asked for
    /// before.
    pub fn ensure_granted(&mut self, granted: bool) -> (should_ask: bool)
        ensures
            should_ask <==> !granted && !old(self).request_sent,
            final(self).request_sent == (old(self).request_sent || !granted),
    {
        if granted {
            return false;
        }
        let should_ask = !self.request_sent;
        self.request_sent = true;
        should_ask
    }
}

/// An engine is only built with permission.
pub fn require_permission(granted: bool) -> (result: Result<(), MixerError>)
    ensures
        match result {
            Ok(()) => granted,
            Err(e) => !granted && e@ == MixerErrorView::Platform(
                "waiting for screen & system audio recording permission"@,
            ),
        },
{
    if granted {
        Ok(())
    } else {
        Err(platform_error("waiting for screen & system audio recording permission"))
    }
}

/// An engine is only built for at least one tap.
pub fn require_taps(count: usize) -> (result: Result<(), MixerError>)
    ensures
        match result {
            Ok(()) => count > 0,
            Err(e) => count == 0 && e@ == MixerErrorView::Platform(
                "TapEngine::new called with no active processes"@,
            ),
        },
{
    if count > 0 {
        Ok(())
    } else {
        Err(platform_error("TapEngine::new called with no active processes"))
    }
}

/// The message of a failed call names the call and gives the status.
pub proof fn law_what_a_failed_call_says(what: Seq<char>, status: i32)
    ensures
        ({
            let message = status_message(what, status);
            let n = what.len() as int;
            &&& message.take(n) == what
            &&& message.subrange(n, n + 22) == " failed with OSStatus "@
            &&& message.skip(n + 22) == signed_decimal(status as int)
        }),
{
    reveal_strlit(" failed with OSStatus ");
    let message = status_message(what, status);
    let n = what.len() as int;
    assert(message.take(n) =~= what);
    assert(message.subrange(n, n + 22) =~= " failed with OSStatus "@);
    assert(message.skip(n + 22) =~= signed_decimal(status as int));
}

/// Taps are taken in their order, and only if every one of them has a uid.
pub proof fn law_every_tap_needs_a_uid(uids: Seq<Option<String>>, i: int)
    requires
        0 <= i < uids.len(),
    ensures
        uids[i] is None ==> all_uids(uids) is None,
        match all_uids(uids) {
            Some(all) => all.len() == uids.len() && (uids[i] matches Some(uid) && all[i] == uid@),
            None => exists|k: int| 0 <= k < uids.len() && (#[trigger] uids[k]) is None,
        },
{
}

} // verus!
