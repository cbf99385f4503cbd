//! Processes that are not shown: parts of the system that the user has no use for.

use std::collections::HashMap;
use vstd::prelude::*;

use crate::session::{opt_str, slice_texts};
use crate::text::starts_with;

verus! {

broadcast use vstd::std_specs::hash::group_hash_axioms;

/// The starts of the bundle ids of hidden system processes.
pub open spec fn hidden_bundle_prefixes() -> Seq<Seq<char>> {
    seq![
        "com.apple.audiomxd"@,
        "com.apple.coreaudiod"@,
        "com.apple.mediaremoted"@,
        "com.apple.controlcenter"@,
        "com.apple.WebKit.GPU"@,
        "com.apple.cmio"@,
    ]
}

/// The directories of programs that belong to the system's inner workings.
pub open spec fn system_directories() -> Seq<Seq<char>> {
    seq!["/System/Library/"@, "/usr/sbin/"@, "/usr/libexec/"@]
}

/// Whether `text` starts with any of the prefixes.
pub open spec fn starts_with_any(text: Seq<char>, prefixes: Seq<Seq<char>>) -> bool {
    exists|i: int| 0 <= i < prefixes.len() && (#[trigger] prefixes[i]).is_prefix_of(text)
}

fn begins_with_any(text: &str, prefixes: &[&str]) -> (yes: bool)
    ensures
        yes == starts_with_any(text@, slice_texts(prefixes@)),
{
    let mut i: usize = 0;
    while i < prefixes.len()
        invariant
            i <= prefixes@.len(),
            forall|k: int|
                0 <= k < i ==> !(#[trigger] slice_texts(prefixes@)[k]).is_prefix_of(text@),
        decreases prefixes@.len() - i,
    {
        assert(slice_texts(prefixes@)[i as int] == prefixes@[i as int]@);
        if starts_with(text, prefixes[i]) {
            return true;
        }
        i += 1;
    }
    false
}

/// Whether a bundle id is that of a hidden system process.
pub fn is_hidden_system_bundle(bundle_id: &str) -> (hidden: bool)
    ensures
        hidden == starts_with_any(bundle_id@, hidden_bundle_prefixes()),
{
    let prefixes: [&str; 6] = [
        "com.apple.audiomxd",
        "com.apple.coreaudiod",
        "com.apple.mediaremoted",
        "com.apple.controlcenter",
        "com.apple.WebKit.GPU",
        "com.apple.cmio",
    ];
    assert(slice_texts(prefixes@) =~= hidden_bundle_prefixes());
    begins_with_any(bundle_id, prefixes.as_slice())
}

/// Whether a program belongs to the system's inner workings.
pub fn is_system_internal_path(path: &str) -> (internal: bool)
    ensures
        internal == starts_with_any(path@, system_directories()),
{
    let prefixes: [&str; 3] = ["/System/Library/", "/usr/sbin/", "/usr/libexec/"];
    assert(slice_texts(prefixes@) =~= system_directories());
    begins_with_any(path, prefixes.as_slice())
}

/// Whether a bundle id, where there is one, is that of a hidden system process.
pub open spec fn hidden_by_bundle(bundle_id: Option<Seq<char>>) -> bool {
    match bundle_id {
        Some(id) => starts_with_any(id, hidden_bundle_prefixes()),
        None => false,
    }
}

/// `libproc::proc_pid::pidpath`: the path of a process's program, or a message why it
/// could not be had. Both depend on what runs on the machine, so nothing is claimed of
/// them.
#[verifier::external_body]
fn program_path(pid: i32) -> (path: Result<String, String>) {
    libproc::proc_pid::pidpath(pid)
}

/// Whether a process is hidden by the path of its program. An answer is remembered;
/// where the path could not be had, the process is shown this time, and nothing is
/// remembered.
pub fn hidden_by_path(
    cache: &mut HashMap<i32, bool>,
    pid: i32,
    path: &Result<String, String>,
) -> (hidden: bool)
    ensures
        match *path {
            Ok(path) => {
                &&& hidden == starts_with_any(path@, system_directories())
                &&& final(cache)@ == old(cache)@.insert(pid, hidden)
            },
            Err(_) => !hidden && final(cache)@ == old(cache)@,
        },
{
    match path {
        Ok(path) => {
            let hidden = is_system_internal_path(path);
            cache.insert(pid, hidden);
            hidden
        },
        Err(_) => false,
    }
}

/// What is known of a process without looking for its program.
pub open spec fn known_hidden(
    cache: Map<i32, bool>,
    bundle_id: Option<Seq<char>>,
    pid: i32,
) -> Option<bool> {
    if cache.dom().contains(pid) {
        Some(cache[pid])
    } else if hidden_by_bundle(bundle_id) {
        Some(true)
    } else {
        None
    }
}

/// Whether a process is hidden, as far as that is known without looking for its
/// program. An answer is remembered.
pub fn hidden_without_path(
    cache: &mut HashMap<i32, bool>,
    bundle_id: Option<&str>,
    pid: i32,
) -> (hidden: Option<bool>)
    ensures
        hidden == known_hidden(old(cache)@, opt_str(bundle_id), pid),
        final(cache)@ == (match hidden {
            Some(h) => old(cache)@.insert(pid, h),
            None => old(cache)@,
        }),
{
    if let Some(hidden) = cache.get(&pid) {
        let hidden: bool = *hidden;
        assert(cache@.insert(pid, hidden) =~= cache@);
        return Some(hidden);
    }
    if let Some(id) = bundle_id {
        if is_hidden_system_bundle(id) {
            cache.insert(pid, true);
            return Some(true);
        }
    }
    None
}

/// Whether a process is hidden: as remembered, or by its bundle id, or by the path of
/// its program.
pub fn is_hidden_system_process_cached(
    cache: &mut HashMap<i32, bool>,
    bundle_id: Option<&str>,
    pid: i32,
) -> (hidden: bool)
    ensures
        match known_hidden(old(cache)@, opt_str(bundle_id), pid) {
            Some(h) => hidden == h && final(cache)@ == old(cache)@.insert(pid, h),
            None => final(cache)@ == old(cache)@.insert(pid, hidden) || (!hidden && final(cache)@
                == old(cache)@),
        },
{
    if let Some(hidden) = hidden_without_path(cache, bundle_id, pid) {
        return hidden;
    }
    let path = program_path(pid);
    hidden_by_path(cache, pid, &path)
}

/// A bundle id is hidden exactly if it starts like that of one of these system processes.
pub proof fn law_which_bundles_are_hidden(id: Seq<char>)
    ensures
        hidden_by_bundle(Some(id)) <==> ("com.apple.audiomxd"@.is_prefix_of(id)
            || "com.apple.coreaudiod"@.is_prefix_of(id) || "com.apple.mediaremoted"@.is_prefix_of(id)
            || "com.apple.controlcenter"@.is_prefix_of(id) || "com.apple.WebKit.GPU"@.is_prefix_of(
            id,
        ) || "com.apple.cmio"@.is_prefix_of(id)),
        !hidden_by_bundle(None),
{
    let p = hidden_bundle_prefixes();
    assert(p[0] == "com.apple.audiomxd"@ && p[1] == "com.apple.coreaudiod"@);
    assert(p[2] == "com.apple.mediaremoted"@ && p[3] == "com.apple.controlcenter"@);
    assert(p[4] == "com.apple.WebKit.GPU"@ && p[5] == "com.apple.cmio"@);
}

/// A program belongs to the system exactly if it is in one of these directories.
pub proof fn law_which_directories_are_the_systems(path: Seq<char>)
    ensures
        starts_with_any(path, system_directories()) <==> ("/System/Library/"@.is_prefix_of(path)
            || "/usr/sbin/"@.is_prefix_of(path) || "/usr/libexec/"@.is_prefix_of(path)),
{
    let p = system_directories();
    assert(p[0] == "/System/Library/"@ && p[1] == "/usr/sbin/"@ && p[2] == "/usr/libexec/"@);
}

/// What is remembered of a process decides, whatever its bundle id; nothing else is known
/// beforehand but that some bundle ids are hidden.
pub proof fn law_what_is_remembered_decides(
    cache: Map<i32, bool>,
    bundle_id: Option<Seq<char>>,
    pid: i32,
    hidden: bool,
)
    ensures
        known_hidden(cache.insert(pid, hidden), bundle_id, pid) == Some(hidden),
        !cache.dom().contains(pid) && hidden_by_bundle(bundle_id) ==> known_hidden(
            cache,
            bundle_id,
            pid,
        ) == Some(true),
        !cache.dom().contains(pid) && !hidden_by_bundle(bundle_id) ==> known_hidden(
            cache,
            bundle_id,
            pid,
        ) is None,
{
}

} // verus!
