//! Routing the sound of single applications on Windows.

use vstd::prelude::*;

use crate::seqs::lemma_push_members;
use crate::session::{opt_text, platform_error, MixerError, MixerErrorView, OutputDevice};

verus! {

/// The build of Windows from which on the routing interface has its present form.
pub const WINDOWS_21H2_BUILD: u32 = 21390;

/// The forms of the routing interface.
#[derive(Clone, Copy, Debug, PartialEq, Eq, Structural)]
pub enum PolicyConfigVariant {
    Downlevel,
    Modern,
}

/// The form of the routing interface that a build of Windows has.
pub fn policy_config_variant(build_number: u32) -> (variant: PolicyConfigVariant)
    ensures
        variant is Modern <==> build_number >= WINDOWS_21H2_BUILD,
{
    if build_number >= WINDOWS_21H2_BUILD {
        PolicyConfigVariant::Modern
    } else {
        PolicyConfigVariant::Downlevel
    }
}

/// The roles under which applications ask for their output device.
#[derive(Clone, Copy, Debug, PartialEq, Eq, Structural)]
pub enum EndpointRole {
    Console,
    Multimedia,
}

/// The roles that a route covers: an application may ask under either.
pub const ENDPOINT_ROLES: [EndpointRole; 2] = [EndpointRole::Console, EndpointRole::Multimedia];

/// The routing interface, in the form that this machine has.
#[derive(Clone, Copy, Debug, PartialEq, Eq, Structural)]
pub struct PolicyConfigFactory {
    pub variant: PolicyConfigVariant,
}

/// The first failure among the outcomes, if there is one.
pub open spec fn first_failure(outcomes: Seq<Result<(), String>>) -> Option<Seq<char>>
    decreases outcomes.len(),
{
    if outcomes.len() == 0 {
        None
    } else {
        match outcomes[0] {
            Err(reason) => Some(reason@),
            Ok(_) => first_failure(outcomes.skip(1)),
        }
    }
}

/// The first device id that was read and is not empty; empty if there is none.
pub open spec fn first_device(readings: Seq<Result<String, String>>) -> Seq<char>
    decreases readings.len(),
{
    if readings.len() == 0 {
        Seq::empty()
    } else {
        match readings[0] {
            Ok(device) => if device@.len() > 0 {
                device@
            } else {
                first_device(readings.skip(1))
            },
            Err(_) => first_device(readings.skip(1)),
        }
    }
}

impl PolicyConfigFactory {
    /// The routing interface of a build of Windows.
    pub fn activate(build_number: u32) -> (factory: Self)
        ensures
            factory.variant is Modern <==> build_number >= WINDOWS_21H2_BUILD,
    {
        PolicyConfigFactory { variant: policy_config_variant(build_number) }
    }

    /// What a request to route comes to, given what came of it under each role: the
    /// first failure, though every role was tried.
    pub fn set(&self, outcomes: &Vec<Result<(), String>>) -> (result: Result<(), MixerError>)
        ensures
            match result {
                Ok(()) => first_failure(outcomes@) is None,
                Err(e) => first_failure(outcomes@) is Some && e@ == MixerErrorView::Platform(
                    first_failure(outcomes@).unwrap(),
                ),
            },
    {
        let mut i: usize = 0;
        assert(outcomes@.skip(0) == outcomes@);
        while i < outcomes.len()
            invariant
                i <= outcomes@.len(),
                first_failure(outcomes@) == first_failure(outcomes@.skip(i as int)),
            decreases outcomes@.len() - i,
        {
            assert(outcomes@.skip(i as int)[0] == outcomes@[i as int]);
            assert(outcomes@.skip(i as int).skip(1) == outcomes@.skip(i + 1));
            if let Err(reason) = &outcomes[i] {
                return Err(platform_error(reason));
            }
            i += 1;
        }
        Ok(())
    }

    /// The device that a process is routed to, given what was read under each role.
    pub fn get(&self, readings: &Vec<Result<String, String>>) -> (device: Result<
        String,
        MixerError,
    >)
        ensures
            device matches Ok(d) && d@ == first_device(readings@),
    {
        let mut i: usize = 0;
        assert(readings@.skip(0) == readings@);
        while i < readings.len()
            invariant
                i <= readings@.len(),
                first_device(readings@) == first_device(readings@.skip(i as int)),
            decreases readings@.len() - i,
        {
            assert(readings@.skip(i as int)[0] == readings@[i as int]);
            assert(readings@.skip(i as int).skip(1) == readings@.skip(i + 1));
            if let Ok(device) = &readings[i] {
                if !device.as_str().is_empty() {
                    return Ok(device.clone());
                }
            }
            i += 1;
        }
        assert(readings@.skip(i as int).len() == 0);
        let none = String::new();
        assert(none@ =~= Seq::<char>::empty());
        Ok(none)
    }
}

/// The device id to hand over for a request: an empty one asks for the system
/// default.
pub fn requested_device(device_id: &Option<String>) -> (id: String)
    ensures
        id@ == (match opt_text(*device_id) {
            Some(device) => device,
            None => Seq::<char>::empty(),
        }),
{
    match device_id {
        Some(device) => device.clone(),
        None => {
            let none = String::new();
            assert(none@ =~= Seq::<char>::empty());
            none
        },
    }
}

/// What routing a process comes to, given what came of it under each role.
pub fn set_session_output_device(
    factory: &PolicyConfigFactory,
    outcomes: &Vec<Result<(), String>>,
) -> (result: Result<(), MixerError>)
    ensures
        match result {
            Ok(()) => first_failure(outcomes@) is None,
            Err(e) => first_failure(outcomes@) is Some && e@ == MixerErrorView::Platform(
                first_failure(outcomes@).unwrap(),
            ),
        },
{
    factory.set(outcomes)
}

/// The device that a process is routed to, if it is routed at all.
pub open spec fn routed_device(readings: Seq<Result<String, String>>) -> Option<Seq<char>> {
    if first_device(readings).len() == 0 {
        None
    } else {
        Some(first_device(readings))
    }
}

pub fn get_session_output_device(
    factory: &PolicyConfigFactory,
    readings: &Vec<Result<String, String>>,
) -> (device: Option<String>)
    ensures
        opt_text(device) == routed_device(readings@),
{
    match factory.get(readings) {
        Ok(device) => if device.as_str().is_empty() {
            None
        } else {
            Some(device)
        },
        Err(_) => None,
    }
}

/// A route that was read back under the first role is the one that is reported,
/// whatever the other role holds.
pub proof fn law_first_role_decides(device: String, other: Result<String, String>)
    requires
        device@.len() > 0,
    ensures
        routed_device(seq![Ok(device), other]) == Some(device@),
{
}

/// A process is reported as not routed exactly if no role holds a device.
pub proof fn law_not_routed(readings: Seq<Result<String, String>>)
    ensures
        routed_device(readings) is None <==> forall|i: int|
            0 <= i < readings.len() ==> ((#[trigger] readings[i]) matches Ok(d) ==> d@.len() == 0),
    decreases readings.len(),
{
    if readings.len() > 0 {
        let rest = readings.skip(1);
        law_not_routed(rest);
        assert forall|i: int| 0 <= i < rest.len() implies rest[i] == readings[i + 1] by {}
        if routed_device(readings) is None {
            assert forall|i: int| 0 <= i < readings.len() implies ((#[trigger] readings[i]) matches Ok(
                d,
            ) ==> d@.len() == 0) by {
                if i > 0 {
                    assert(rest[i - 1] == readings[i]);
                }
            }
        } else {
            if !(readings[0] matches Ok(d) && d@.len() > 0) {
                let k = choose|k: int|
                    0 <= k < rest.len() && !((#[trigger] rest[k]) matches Ok(d) ==> d@.len() == 0);
                assert(readings[k + 1] == rest[k]);
            }
        }
    }
}

/// The path by which the routing interface knows a device.
pub open spec fn device_path(mmdevice_id: Seq<char>) -> Seq<char> {
    "\\\\?\\SWD#MMDEVAPI#"@ + mmdevice_id + "#{e6327cad-dcec-4949-ae8a-991e976a79d2}"@
}

/// The path by which the routing interface knows a device.
pub fn render_device_interface_path(mmdevice_id: &str) -> (path: String)
    ensures
        path@ == device_path(mmdevice_id@),
{
    "\\\\?\\SWD#MMDEVAPI#".to_owned().concat(mmdevice_id).concat(
        "#{e6327cad-dcec-4949-ae8a-991e976a79d2}",
    )
}

/// A render device as it was found: its id and its name, as far as they could be
/// read.
#[derive(Debug, PartialEq)]
pub struct FoundDevice {
    pub mmdevice_id: Option<String>,
    pub friendly_name: Option<String>,
}

/// The devices that can be offered: those whose id and name could both be read.
pub open spec fn offered(found: Seq<FoundDevice>) -> Seq<(Seq<char>, Seq<char>)>
    decreases found.len(),
{
    if found.len() == 0 {
        Seq::empty()
    } else {
        let before = offered(found.drop_last());
        match (found.last().mmdevice_id, found.last().friendly_name) {
            (Some(id), Some(name)) => before.push((device_path(id@), name@)),
            _ => before,
        }
    }
}

pub open spec fn device_views(devices: Seq<OutputDevice>) -> Seq<(Seq<char>, Seq<char>)> {
    devices.map_values(|d: OutputDevice| (d.id@, d.name@))
}

/// The output devices to offer. One that could not be read is left out.
pub fn list_output_devices(found: &Vec<FoundDevice>) -> (devices: Vec<OutputDevice>)
    ensures
        device_views(devices@) == offered(found@),
{
    let mut devices: Vec<OutputDevice> = Vec::new();
    let mut i: usize = 0;
    assert(device_views(devices@) =~= offered(found@.take(0)));
    while i < found.len()
        invariant
            i <= found@.len(),
            device_views(devices@) == offered(found@.take(i as int)),
        decreases found@.len() - i,
    {
        let ghost before = devices@;
        proof {
            assert(found@.take(i + 1).drop_last() == found@.take(i as int));
            assert(found@.take(i + 1).last() == found@[i as int]);
        }
        if let Some(id) = &found[i].mmdevice_id {
            if let Some(name) = &found[i].friendly_name {
                let device = OutputDevice {
                    id: render_device_interface_path(id),
                    name: name.clone(),
                };
                let ghost added = (device.id@, device.name@);
                devices.push(device);
                assert(device_views(devices@) =~= device_views(before).push(added));
            }
        }
        i += 1;
    }
    assert(found@.take(i as int) == found@);
    devices
}

/// Routing fails exactly if it failed under some role, and for the reason of the first one
/// of these.
pub proof fn law_the_first_failure_is_reported(outcomes: Seq<Result<(), String>>)
    ensures
        match first_failure(outcomes) {
            Some(reason) => exists|i: int|
                0 <= i < outcomes.len() && ((#[trigger] outcomes[i]) matches Err(r) && r@ == reason)
                    && forall|k: int| 0 <= k < i ==> (#[trigger] outcomes[k]) is Ok,
            None => forall|i: int| 0 <= i < outcomes.len() ==> (#[trigger] outcomes[i]) is Ok,
        },
    decreases outcomes.len(),
{
    if outcomes.len() > 0 {
        let rest = outcomes.skip(1);
        law_the_first_failure_is_reported(rest);
        if outcomes[0] is Ok {
            match first_failure(rest) {
                Some(reason) => {
                    let i = choose|i: int|
                        0 <= i < rest.len() && ((#[trigger] rest[i]) matches Err(r) && r@ == reason)
                            && forall|k: int| 0 <= k < i ==> (#[trigger] rest[k]) is Ok;
                    assert(outcomes[i + 1] == rest[i]);
                    assert forall|k: int| 0 <= k < i + 1 implies (#[trigger] outcomes[k]) is Ok by {
                        if k > 0 {
                            assert(rest[k - 1] == outcomes[k]);
                        }
                    }
                },
                None => {
                    assert forall|i: int| 0 <= i < outcomes.len() implies (
                    #[trigger] outcomes[i]) is Ok by {
                        if i > 0 {
                            assert(rest[i - 1] == outcomes[i]);
                        }
                    }
                },
            }
        } else {
            assert(outcomes[0] is Err);
        }
    }
}

/// Whether a device was read under the role at `i`.
pub open spec fn names_a_device(reading: Result<String, String>) -> bool {
    reading matches Ok(device) && device@.len() > 0
}

/// A process is reported as routed to the device that is read under the first role that
/// holds one.
pub proof fn law_the_first_route_is_reported(readings: Seq<Result<String, String>>, i: int)
    requires
        0 <= i < readings.len(),
        names_a_device(readings[i]),
        forall|k: int| 0 <= k < i ==> !names_a_device(#[trigger] readings[k]),
    ensures
        readings[i] matches Ok(device) && routed_device(readings) == Some(device@),
    decreases readings.len(),
{
    if i > 0 {
        let rest = readings.skip(1);
        assert(!names_a_device(readings[0]));
        assert(rest[i - 1] == readings[i]);
        assert forall|k: int| 0 <= k < i - 1 implies !names_a_device(#[trigger] rest[k]) by {
            assert(rest[k] == readings[k + 1]);
        }
        law_the_first_route_is_reported(rest, i - 1);
    }
}

/// The path of a device holds its id between a fixed start and the interface class of
/// render devices.
pub proof fn law_the_path_holds_the_id(mmdevice_id: Seq<char>)
    ensures
        ({
            let path = device_path(mmdevice_id);
            &&& path.len() == mmdevice_id.len() + 56
            &&& path.subrange(17, 17 + mmdevice_id.len() as int) == mmdevice_id
            &&& path.take(17) == seq![
                '\\', '\\', '?', '\\', 'S', 'W', 'D', '#', 'M', 'M', 'D', 'E', 'V', 'A', 'P', 'I', '#',
            ]
            &&& path.skip(17 + mmdevice_id.len() as int)
                == "#{e6327cad-dcec-4949-ae8a-991e976a79d2}"@
        }),
{
    reveal_strlit("\\\\?\\SWD#MMDEVAPI#");
    reveal_strlit("#{e6327cad-dcec-4949-ae8a-991e976a79d2}");
    let path = device_path(mmdevice_id);
    assert(path.subrange(17, 17 + mmdevice_id.len() as int) =~= mmdevice_id);
    assert(path.take(17) =~= seq![
        '\\', '\\', '?', '\\', 'S', 'W', 'D', '#', 'M', 'M', 'D', 'E', 'V', 'A', 'P', 'I', '#',
    ]);
    assert(path.skip(17 + mmdevice_id.len() as int)
        =~= "#{e6327cad-dcec-4949-ae8a-991e976a79d2}"@);
}

/// A device is offered exactly if its id and its name could both be read, under that name
/// and the path made of that id.
pub proof fn law_every_readable_device_is_offered(
    found: Seq<FoundDevice>,
    path: Seq<char>,
    name: Seq<char>,
)
    ensures
        offered(found).contains((path, name)) <==> exists|i: int|
            0 <= i < found.len() && ((#[trigger] found[i]).mmdevice_id matches Some(id)
                && found[i].friendly_name matches Some(n) && device_path(id@) == path && n@
                == name),
        offered(found).len() <= found.len(),
    decreases found.len(),
{
    if found.len() > 0 {
        let init = found.drop_last();
        let last = found.last();
        law_every_readable_device_is_offered(init, path, name);
        let before = offered(init);
        if let (Some(id), Some(n)) = (last.mmdevice_id, last.friendly_name) {
            lemma_push_members(before, (device_path(id@), n@));
            assert(offered(found).contains((path, name)) == (before.contains((path, name)) || (
                path,
                name,
            ) == (device_path(id@), n@)));
        }
        if before.contains((path, name)) {
            let i = choose|i: int|
                0 <= i < init.len() && ((#[trigger] init[i]).mmdevice_id matches Some(id)
                    && init[i].friendly_name matches Some(n) && device_path(id@) == path && n@
                    == name);
            assert(found[i] == init[i]);
        }
        if exists|i: int|
            0 <= i < found.len() && ((#[trigger] found[i]).mmdevice_id matches Some(id)
                && found[i].friendly_name matches Some(n) && device_path(id@) == path && n@
                == name) {
            let i = choose|i: int|
                0 <= i < found.len() && ((#[trigger] found[i]).mmdevice_id matches Some(id)
                    && found[i].friendly_name matches Some(n) && device_path(id@) == path && n@
                    == name);
            if i < init.len() {
                assert(init[i] == found[i]);
            }
        }
        assert(found[found.len() - 1] == last);
    }
}

/// Devices are offered in the order in which they were found.
pub proof fn law_devices_keep_their_order(first: Seq<FoundDevice>, second: Seq<FoundDevice>)
    ensures
        offered(first + second) == offered(first) + offered(second),
    decreases second.len(),
{
    if second.len() > 0 {
        law_devices_keep_their_order(first, second.drop_last());
        assert((first + second).drop_last() =~= first + second.drop_last());
        assert((first + second).last() == second.last());
        assert(offered(first + second) =~= offered(first) + offered(second));
    } else {
        assert(first + second =~= first);
        assert(offered(first) + offered(second) =~= offered(first));
    }
}

} // verus!
