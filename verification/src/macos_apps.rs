//! Applications on macOS: which processes there are, and what they are called.

use vstd::prelude::*;

use crate::macos::AudioProcessInfo;
use crate::macos_listing::placeholder_name;
use crate::seqs::lemma_push_members;
use crate::session::{copy_text, opt_text, RunningAppInfo};
use crate::text::{signed_decimal, with_signed};

verus! {

/// What was read of one process.
#[derive(Debug, PartialEq)]
pub struct ProcessRead {
    pub object_id: u32,
    /// The process id; a process that is gone by now has none.
    pub pid: Option<i32>,
    /// Whether it reports to make sound, as a number; unread if it could not be had.
    pub is_running_output: Option<u32>,
    /// The bundle id; an empty one counts as none.
    pub bundle_id: Option<String>,
}

/// The bundle id, if it is not empty.
pub open spec fn nonempty(text: Option<String>) -> Option<Seq<char>> {
    match text {
        Some(t) => if t@.len() > 0 {
            Some(t@)
        } else {
            None
        },
        None => None,
    }
}

/// What an `AudioProcessInfo` holds.
#[verifier::ext_equal]
pub struct ProcessView {
    pub object_id: u32,
    pub pid: i32,
    pub bundle_id: Option<Seq<char>>,
    pub is_running_output: bool,
}

pub open spec fn process_views(processes: Seq<AudioProcessInfo>) -> Seq<ProcessView> {
    processes.map_values(
        |p: AudioProcessInfo|
            ProcessView {
                object_id: p.object_id,
                pid: p.pid,
                bundle_id: opt_text(p.bundle_id),
                is_running_output: p.is_running_output,
            },
    )
}

/// The processes that could be read.
pub open spec fn readable(reads: Seq<ProcessRead>) -> Seq<ProcessView>
    decreases reads.len(),
{
    if reads.len() == 0 {
        Seq::empty()
    } else {
        let before = readable(reads.drop_last());
        let last = reads.last();
        match last.pid {
            Some(pid) => before.push(
                ProcessView {
                    object_id: last.object_id,
                    pid,
                    bundle_id: nonempty(last.bundle_id),
                    is_running_output: last.is_running_output matches Some(n) && n != 0,
                },
            ),
            None => before,
        }
    }
}

/// The processes that could be read. One that went away meanwhile is left out.
pub fn list_audio_processes(reads: &Vec<ProcessRead>) -> (processes: Vec<AudioProcessInfo>)
    ensures
        process_views(processes@) == readable(reads@),
{
    let mut processes: Vec<AudioProcessInfo> = Vec::new();
    let mut i: usize = 0;
    assert(process_views(processes@) =~= readable(reads@.take(0)));
    while i < reads.len()
        invariant
            i <= reads@.len(),
            process_views(processes@) == readable(reads@.take(i as int)),
        decreases reads@.len() - i,
    {
        let ghost before = processes@;
        proof {
            assert(reads@.take(i + 1).drop_last() == reads@.take(i as int));
            assert(reads@.take(i + 1).last() == reads@[i as int]);
        }
        if let Some(pid) = reads[i].pid {
            let is_running_output = match reads[i].is_running_output {
                Some(n) => n != 0,
                None => false,
            };
            let bundle_id = match &reads[i].bundle_id {
                Some(id) => if id.as_str().is_empty() {
                    None
                } else {
                    Some(id.clone())
                },
                None => None,
            };
            let process = AudioProcessInfo {
                object_id: reads[i].object_id,
                pid,
                bundle_id,
                is_running_output,
            };
            processes.push(process);
            assert(process_views(processes@) =~= readable(reads@.take(i + 1)));
        }
        i += 1;
    }
    assert(reads@.take(i as int) == reads@);
    processes
}

/// One application as the system lists it.
#[derive(Debug, PartialEq)]
pub struct FoundApp {
    /// Whether it is an ordinary one with a place in the Dock.
    pub is_regular: bool,
    pub pid: i32,
    pub name: Option<String>,
}

/// The names of the ordinary applications other than this program.
pub open spec fn running_names(found: Seq<FoundApp>, own_pid: i32) -> Seq<Seq<char>>
    decreases found.len(),
{
    if found.len() == 0 {
        Seq::empty()
    } else {
        let before = running_names(found.drop_last(), own_pid);
        let last = found.last();
        if last.is_regular && last.pid != own_pid && nonempty(last.name) is Some {
            before.push(nonempty(last.name).unwrap())
        } else {
            before
        }
    }
}

pub open spec fn app_names(apps: Seq<RunningAppInfo>) -> Seq<Seq<char>> {
    apps.map_values(|a: RunningAppInfo| a.name@)
}

/// The ordinary applications other than this program, as far as they have a name.
pub fn list_running_applications(found: &Vec<FoundApp>, own_pid: i32) -> (apps: Vec<
    RunningAppInfo,
>)
    ensures
        app_names(apps@) == running_names(found@, own_pid),
{
    let mut apps: Vec<RunningAppInfo> = Vec::new();
    let mut i: usize = 0;
    assert(app_names(apps@) =~= running_names(found@.take(0), own_pid));
    while i < found.len()
        invariant
            i <= found@.len(),
            app_names(apps@) == running_names(found@.take(i as int), own_pid),
        decreases found@.len() - i,
    {
        let ghost before = apps@;
        proof {
            assert(found@.take(i + 1).drop_last() == found@.take(i as int));
            assert(found@.take(i + 1).last() == found@[i as int]);
        }
        if found[i].is_regular && found[i].pid != own_pid {
            if let Some(name) = &found[i].name {
                if !name.as_str().is_empty() {
                    apps.push(RunningAppInfo { name: name.clone() });
                    assert(app_names(apps@) =~= app_names(before).push(name@));
                }
            }
        }
        i += 1;
    }
    assert(found@.take(i as int) == found@);
    apps
}

/// How many processes are asked for their name before giving up.
pub const MAX_PARENT_WALK_DEPTH: u8 = 8;

/// What to do after a process was asked for its name.
#[derive(Clone, Copy, Debug, PartialEq, Eq, Structural)]
pub enum WalkStep {
    /// Use its name and icon.
    Found,
    /// Nothing was found.
    GiveUp,
    /// Ask its parent.
    Ask(i32),
}

/// What to do after the process at the given depth was asked for its name, given its
/// parent, as far as it could be had. A process whose parent is none, the first process
/// of the system or itself is the end of the way.
pub open spec fn walked(depth: u8, pid: i32, has_name: bool, parent: Option<i32>) -> WalkStep {
    if has_name {
        WalkStep::Found
    } else {
        match parent {
            Some(parent_pid) => if parent_pid <= 1 || parent_pid == pid || depth + 1
                == MAX_PARENT_WALK_DEPTH {
                WalkStep::GiveUp
            } else {
                WalkStep::Ask(parent_pid)
            },
            None => WalkStep::GiveUp,
        }
    }
}

/// What to do after the process at the given depth was asked for its name.
pub fn walk_step(depth: u8, pid: i32, has_name: bool, parent: Option<i32>) -> (step: WalkStep)
    requires
        depth < MAX_PARENT_WALK_DEPTH,
    ensures
        step == walked(depth, pid, has_name, parent),
{
    if has_name {
        return WalkStep::Found;
    }
    match parent {
        Some(parent_pid) => if parent_pid <= 1 || parent_pid == pid || depth + 1
            == MAX_PARENT_WALK_DEPTH {
            WalkStep::GiveUp
        } else {
            WalkStep::Ask(parent_pid)
        },
        None => WalkStep::GiveUp,
    }
}

/// The name to show for a process: its own, or else its bundle id, or else its number.
pub open spec fn shown_name(
    localized: Option<String>,
    bundle_id: Option<String>,
    pid: i32,
) -> Seq<char> {
    match nonempty(localized) {
        Some(name) => name,
        None => match opt_text(bundle_id) {
            Some(id) => id,
            None => placeholder_name(pid),
        },
    }
}

/// The name to show for a process.
pub fn app_display_name(
    localized: &Option<String>,
    bundle_id: &Option<String>,
    pid: i32,
) -> (name: String)
    ensures
        name@ == shown_name(*localized, *bundle_id, pid),
{
    if let Some(name) = localized {
        if !name.as_str().is_empty() {
            return name.clone();
        }
    }
    match copy_text(bundle_id) {
        Some(id) => id,
        None => with_signed("pid ", pid),
    }
}

/// Whether `view` is what was read of a process that has a process id: an empty bundle id is
/// none, and it makes sound only if a number other than zero says so.
pub open spec fn is_read_as(read: ProcessRead, view: ProcessView) -> bool {
    &&& read.pid == Some(view.pid)
    &&& view.object_id == read.object_id
    &&& match read.bundle_id {
        Some(id) => if id@.len() == 0 {
            view.bundle_id is None
        } else {
            view.bundle_id == Some(id@)
        },
        None => view.bundle_id is None,
    }
    &&& match read.is_running_output {
        Some(n) => view.is_running_output == (n > 0),
        None => !view.is_running_output,
    }
}

/// Exactly the processes that have a process id are listed, as they were read.
pub proof fn law_which_processes_are_listed(reads: Seq<ProcessRead>, view: ProcessView)
    ensures
        readable(reads).contains(view) <==> exists|i: int|
            0 <= i < reads.len() && is_read_as(#[trigger] reads[i], view),
        readable(reads).len() <= reads.len(),
    decreases reads.len(),
{
    if reads.len() > 0 {
        let init = reads.drop_last();
        let last = reads.last();
        let before = readable(init);
        law_which_processes_are_listed(init, view);
        if last.pid is Some {
            let added = readable(reads).last();
            lemma_push_members(before, added);
            assert(readable(reads) == before.push(added));
            assert(before.push(added).contains(view) == (before.contains(view) || view == added));
            assert(is_read_as(last, view) <==> view =~= added);
        }
        if before.contains(view) {
            let i = choose|i: int| 0 <= i < init.len() && is_read_as(#[trigger] init[i], view);
            assert(is_read_as(reads[i], view));
        }
        if exists|i: int| 0 <= i < reads.len() && is_read_as(#[trigger] reads[i], view) {
            let i = choose|i: int| 0 <= i < reads.len() && is_read_as(#[trigger] reads[i], view);
            if i < init.len() {
                assert(is_read_as(init[i], view));
            }
        }
        assert(reads[reads.len() - 1] == last);
    }
}

/// Processes are listed in the order in which they were read.
pub proof fn law_processes_keep_their_order(first: Seq<ProcessRead>, second: Seq<ProcessRead>)
    ensures
        readable(first + second) == readable(first) + readable(second),
    decreases second.len(),
{
    if second.len() > 0 {
        law_processes_keep_their_order(first, second.drop_last());
        assert((first + second).drop_last() =~= first + second.drop_last());
        assert((first + second).last() == second.last());
        assert(readable(first + second) =~= readable(first) + readable(second));
    } else {
        assert(first + second =~= first);
        assert(readable(first) + readable(second) =~= readable(first));
    }
}

/// Whether an application is offered under a name.
pub open spec fn is_offered_as(app: FoundApp, own_pid: i32, name: Seq<char>) -> bool {
    &&& app.is_regular
    &&& app.pid != own_pid
    &&& app.name matches Some(n)
    &&& n@ == name
    &&& name.len() > 0
}

/// Exactly the ordinary applications other than this program that have a name are offered,
/// under that name.
pub proof fn law_which_applications_are_offered(
    found: Seq<FoundApp>,
    own_pid: i32,
    name: Seq<char>,
)
    ensures
        running_names(found, own_pid).contains(name) <==> exists|i: int|
            0 <= i < found.len() && is_offered_as(#[trigger] found[i], own_pid, name),
        running_names(found, own_pid).len() <= found.len(),
    decreases found.len(),
{
    if found.len() > 0 {
        let init = found.drop_last();
        let last = found.last();
        let before = running_names(init, own_pid);
        law_which_applications_are_offered(init, own_pid, name);
        if let Some(n) = last.name {
            lemma_push_members(before, n@);
            assert(before.push(n@).contains(name) == (before.contains(name) || name == n@));
        }
        if before.contains(name) {
            let i = choose|i: int|
                0 <= i < init.len() && is_offered_as(#[trigger] init[i], own_pid, name);
            assert(is_offered_as(found[i], own_pid, name));
        }
        if exists|i: int| 0 <= i < found.len() && is_offered_as(#[trigger] found[i], own_pid, name) {
            let i = choose|i: int|
                0 <= i < found.len() && is_offered_as(#[trigger] found[i], own_pid, name);
            if i < init.len() {
                assert(is_offered_as(init[i], own_pid, name));
            }
        }
        assert(found[found.len() - 1] == last);
    }
}

/// Applications are offered in the order in which they were found.
pub proof fn law_applications_keep_their_order(
    first: Seq<FoundApp>,
    second: Seq<FoundApp>,
    own_pid: i32,
)
    ensures
        running_names(first + second, own_pid) == running_names(first, own_pid) + running_names(
            second,
            own_pid,
        ),
    decreases second.len(),
{
    let all = running_names(first + second, own_pid);
    if second.len() > 0 {
        law_applications_keep_their_order(first, second.drop_last(), own_pid);
        assert((first + second).drop_last() =~= first + second.drop_last());
        assert((first + second).last() == second.last());
        assert(all =~= running_names(first, own_pid) + running_names(second, own_pid));
    } else {
        assert(first + second =~= first);
        assert(all =~= running_names(first, own_pid) + running_names(second, own_pid));
    }
}

/// What a process is called: by its own name if that is not empty, or else by its bundle id,
/// or else by its number.
pub proof fn law_what_a_process_is_called(
    localized: Option<String>,
    bundle_id: Option<String>,
    pid: i32,
)
    ensures
        match (localized, bundle_id) {
            (Some(name), Some(id)) => shown_name(localized, bundle_id, pid) == if name@.len() > 0 {
                name@
            } else {
                id@
            },
            (None, Some(id)) => shown_name(localized, bundle_id, pid) == id@,
            (Some(name), None) => shown_name(localized, bundle_id, pid) == if name@.len() > 0 {
                name@
            } else {
                seq!['p', 'i', 'd', ' '] + signed_decimal(pid as int)
            },
            (None, None) => shown_name(localized, bundle_id, pid) == seq!['p', 'i', 'd', ' ']
                + signed_decimal(pid as int),
        },
{
    reveal_strlit("pid ");
    assert("pid "@ =~= seq!['p', 'i', 'd', ' ']);
}

/// A process that has a name ends the search. Otherwise its parent is asked exactly if it is
/// another process, not the first one of the system, and fewer than eight have been asked.
pub proof fn law_whose_name_is_asked_for(
    depth: u8,
    pid: i32,
    has_name: bool,
    parent: Option<i32>,
    asked: i32,
)
    requires
        depth < 8,
    ensures
        walked(depth, pid, has_name, parent) is Found <==> has_name,
        walked(depth, pid, has_name, parent) == WalkStep::Ask(asked) <==> !has_name && parent
            == Some(asked) && asked >= 2 && asked != pid && depth + 2 <= 8,
{
}

} // verus!
