//! Local identities read from the host's thread manager.
use crate::text;
use crate::text::copy_option;
use crate::text::same;
use vstd::prelude::*;

verus! {

/// The identity that one conversation, or one slot of the session pool, presents upstream.
#[derive(Debug)]
pub struct SessionIdentity {
    pub installation_id: String,
    pub session_id: String,
    pub thread_id: String,
    pub window_id: String,
    pub parent_thread_id: Option<String>,
    pub turn_id: Option<String>,
    pub root_turn_id: Option<String>,
    pub parent_turn_id: Option<String>,
}

/// The model of a `SessionIdentity`.
pub struct Persona {
    pub installation_id: Seq<char>,
    pub session_id: Seq<char>,
    pub thread_id: Seq<char>,
    pub window_id: Seq<char>,
    pub parent_thread_id: Option<Seq<char>>,
    pub turn_id: Option<Seq<char>>,
    pub root_turn_id: Option<Seq<char>>,
    pub parent_turn_id: Option<Seq<char>>,
}

impl View for SessionIdentity {
    type V = Persona;

    open spec fn view(&self) -> Persona {
        Persona {
            installation_id: self.installation_id@,
            session_id: self.session_id@,
            thread_id: self.thread_id@,
            window_id: self.window_id@,
            parent_thread_id: text::text_option(self.parent_thread_id),
            turn_id: text::text_option(self.turn_id),
            root_turn_id: text::text_option(self.root_turn_id),
            parent_turn_id: text::text_option(self.parent_turn_id),
        }
    }
}

/// The models of a list of identities.
pub open spec fn personas(list: Seq<SessionIdentity>) -> Seq<Persona> {
    list.map_values(|i: SessionIdentity| i@)
}

/// The view of an optional identity.
pub open spec fn persona_option(i: Option<SessionIdentity>) -> Option<Persona> {
    match i {
        Some(i) => Some(i@),
        None => None,
    }
}

pub fn same_option(a: &Option<String>, b: &Option<String>) -> (r: bool)
    ensures
        r == (text::text_option(*a) == text::text_option(*b)),
{
    match (a, b) {
        (Some(a), Some(b)) => same(a, b),
        (None, None) => true,
        _ => false,
    }
}

impl SessionIdentity {
    pub fn equals(&self, other: &SessionIdentity) -> (r: bool)
        ensures
            r == (self@ == other@),
    {
        same(&self.installation_id, &other.installation_id) && same(
            &self.session_id,
            &other.session_id,
        ) && same(&self.thread_id, &other.thread_id) && same(&self.window_id, &other.window_id)
            && same_option(&self.parent_thread_id, &other.parent_thread_id) && same_option(
            &self.turn_id,
            &other.turn_id,
        ) && same_option(&self.root_turn_id, &other.root_turn_id) && same_option(
            &self.parent_turn_id,
            &other.parent_turn_id,
        )
    }

    pub fn duplicate(&self) -> (r: SessionIdentity)
        ensures
            r@ == self@,
    {
        SessionIdentity {
            installation_id: self.installation_id.clone(),
            session_id: self.session_id.clone(),
            thread_id: self.thread_id.clone(),
            window_id: self.window_id.clone(),
            parent_thread_id: copy_option(&self.parent_thread_id),
            turn_id: copy_option(&self.turn_id),
            root_turn_id: copy_option(&self.root_turn_id),
            parent_turn_id: copy_option(&self.parent_turn_id),
        }
    }
}

/// A copy of an optional identity.
pub fn copy_identity(i: &Option<SessionIdentity>) -> (r: Option<SessionIdentity>)
    ensures
        persona_option(r) == persona_option(*i),
{
    match i {
        Some(i) => Some(i.duplicate()),
        None => None,
    }
}

} // verus!
