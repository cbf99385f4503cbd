//! Sessions in memory, for trying things out without any sound.

use vstd::prelude::*;

use crate::level::Level;
use crate::session::{
    clamp_volume, clamped_volume, session_not_found, session_views, AppSession, MixerError,
    MixerErrorView, SessionView,
};
use crate::text::same_text;

verus! {

/// Sessions that are only remembered.
pub struct MockMixerBackend {
    pub sessions: Vec<AppSession>,
}

impl View for MockMixerBackend {
    type V = Seq<SessionView>;

    open spec fn view(&self) -> Seq<SessionView> {
        session_views(self.sessions@)
    }
}

/// Whether the session at `i` is the first one with the given id.
pub open spec fn is_first_with_id(sessions: Seq<SessionView>, id: Seq<char>, i: int) -> bool {
    &&& 0 <= i < sessions.len()
    &&& sessions[i].id == id
    &&& forall|k: int| 0 <= k < i ==> (#[trigger] sessions[k]).id != id
}

/// Whether any session has the given id.
pub open spec fn has_id(sessions: Seq<SessionView>, id: Seq<char>) -> bool {
    exists|i: int| 0 <= i < sessions.len() && (#[trigger] sessions[i]).id == id
}

impl MockMixerBackend {
    pub fn new(sessions: Vec<AppSession>) -> (backend: Self)
        ensures
            backend@ == session_views(sessions@),
    {
        MockMixerBackend { sessions }
    }

    fn position(&self, session_id: &str) -> (found: Option<usize>)
        ensures
            match found {
                Some(i) => is_first_with_id(self@, session_id@, i as int),
                None => !has_id(self@, session_id@),
            },
    {
        let mut i: usize = 0;
        while i < self.sessions.len()
            invariant
                i <= self.sessions@.len(),
                forall|k: int| 0 <= k < i ==> (#[trigger] self@[k]).id != session_id@,
            decreases self.sessions@.len() - i,
        {
            assert(self@[i as int] == self.sessions@[i as int]@);
            if same_text(&self.sessions[i].id, session_id) {
                return Some(i);
            }
            i += 1;
        }
        None
    }

    /// A copy of all sessions.
    pub fn list_sessions(&self) -> (sessions: Result<Vec<AppSession>, MixerError>)
        ensures
            sessions matches Ok(s) && session_views(s@) == self@,
    {
        let mut copy: Vec<AppSession> = Vec::new();
        let mut i: usize = 0;
        while i < self.sessions.len()
            invariant
                i <= self.sessions@.len(),
                copy@.len() == i,
                forall|k: int| 0 <= k < i ==> (#[trigger] copy@[k])@ == self@[k],
            decreases self.sessions@.len() - i,
        {
            copy.push(self.sessions[i].clone());
            i += 1;
        }
        assert(session_views(copy@) =~= self@);
        Ok(copy)
    }

    /// Sets the volume of the first session with the given id.
    pub fn set_volume(&mut self, session_id: &str, volume: Level) -> (result: Result<
        (),
        MixerError,
    >)
        ensures
            match result {
                Ok(()) => exists|i: int| #[trigger]
                    is_first_with_id(old(self)@, session_id@, i) && final(self)@ == old(
                        self,
                    )@.update(
                        i,
                        SessionView { volume: clamped_volume(volume), ..old(self)@[i] },
                    ),
                Err(e) => {
                    &&& !has_id(old(self)@, session_id@)
                    &&& e@ == MixerErrorView::SessionNotFound(session_id@)
                    &&& final(self)@ == old(self)@
                },
            },
    {
        match self.position(session_id) {
            Some(i) => {
                let ghost before = self@;
                let mut session = self.sessions[i].clone();
                session.volume = clamp_volume(volume);
                let ghost row = session@;
                self.sessions.set(i, session);
                assert(self@ =~= before.update(i as int, row));
                assert(is_first_with_id(before, session_id@, i as int));
                Ok(())
            },
            None => Err(session_not_found(session_id)),
        }
    }

    /// Mutes or unmutes the first session with the given id.
    pub fn set_muted(&mut self, session_id: &str, muted: bool) -> (result: Result<
        (),
        MixerError,
    >)
        ensures
            match result {
                Ok(()) => exists|i: int| #[trigger]
                    is_first_with_id(old(self)@, session_id@, i) && final(self)@ == old(
                        self,
                    )@.update(i, SessionView { muted, ..old(self)@[i] }),
                Err(e) => {
                    &&& !has_id(old(self)@, session_id@)
                    &&& e@ == MixerErrorView::SessionNotFound(session_id@)
                    &&& final(self)@ == old(self)@
                },
            },
    {
        match self.position(session_id) {
            Some(i) => {
                let ghost before = self@;
                let mut session = self.sessions[i].clone();
                session.muted = muted;
                let ghost row = session@;
                self.sessions.set(i, session);
                assert(self@ =~= before.update(i as int, row));
                assert(is_first_with_id(before, session_id@, i as int));
                Ok(())
            },
            None => Err(session_not_found(session_id)),
        }
    }
}

/// A session is found exactly if one has the id, and then it is the first one that has it.
pub proof fn law_the_first_session_is_found(sessions: Seq<SessionView>, id: Seq<char>, i: int)
    requires
        0 <= i < sessions.len(),
    ensures
        sessions[i].id == id ==> has_id(sessions, id),
        is_first_with_id(sessions, id, i) ==> sessions[i].id == id,
        forall|k: int|
            0 <= k < sessions.len() && is_first_with_id(sessions, id, i) && (
            #[trigger] sessions[k]).id == id ==> i <= k,
        (forall|k: int| 0 <= k < sessions.len() ==> (#[trigger] sessions[k]).id != id) ==> !has_id(
            sessions,
            id,
        ),
{
}

} // verus!
