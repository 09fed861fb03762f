//! Opaque protocol identifiers, held in their string form.

use vstd::prelude::*;

verus! {

pub uninterp spec fn event_id_ok(s: Seq<char>) -> bool;

pub uninterp spec fn room_id_ok(s: Seq<char>) -> bool;

/// Error returned when a string is not a valid identifier.
#[derive(Debug, Clone, PartialEq, Eq)]
pub struct IdError;

/// Relies on `matrix_sdk::ruma::EventId::parse`: whether an event
/// identifier string is accepted depends on its characters alone.
#[verifier::external_body]
fn event_id_accepted(s: &str) -> (r: bool)
    ensures
        r == event_id_ok(s@),
{
    matrix_sdk::ruma::EventId::parse(s).is_ok()
}

/// Relies on `matrix_sdk::ruma::RoomId::parse`: whether a room
/// identifier string is accepted depends on its characters alone.
#[verifier::external_body]
fn room_id_accepted(s: &str) -> (r: bool)
    ensures
        r == room_id_ok(s@),
{
    matrix_sdk::ruma::RoomId::parse(s).is_ok()
}

/// An opaque identifier of one protocol event.
#[derive(Debug, PartialEq, Eq)]
pub struct EventId {
    id: String,
}

impl View for EventId {
    type V = Seq<char>;

    closed spec fn view(&self) -> Seq<char> {
        self.id@
    }
}

impl EventId {
    /// Every event identifier value holds a string the grammar accepts.
    #[verifier::type_invariant]
    pub open spec fn valid(self) -> bool {
        event_id_ok(self@)
    }

    /// Parses an event identifier; succeeds exactly on the strings the
    /// protocol's identifier grammar accepts.
    pub fn parse(s: &str) -> (r: Result<EventId, IdError>)
        ensures
            match r {
                Ok(id) => event_id_ok(s@) && id@ == s@,
                Err(_) => !event_id_ok(s@),
            },
    {
        if event_id_accepted(s) {
            Ok(EventId { id: s.to_owned() })
        } else {
            Err(IdError)
        }
    }

    /// The identifier's string form.
    pub fn as_str(&self) -> (r: &str)
        ensures
            r@ == self@,
    {
        self.id.as_str()
    }
}

impl Clone for EventId {
    /// Cloning keeps the identifier's characters.
    fn clone(&self) -> (r: Self)
        ensures
            r@ == self@,
    {
        proof {
            use_type_invariant(self);
        }
        EventId { id: self.id.clone() }
    }
}

/// An opaque identifier of one conversation (room).
#[derive(Debug, PartialEq, Eq)]
pub struct RoomId {
    id: String,
}

impl View for RoomId {
    type V = Seq<char>;

    closed spec fn view(&self) -> Seq<char> {
        self.id@
    }
}

impl RoomId {
    /// Every room identifier value holds a string the grammar accepts.
    #[verifier::type_invariant]
    pub open spec fn valid(self) -> bool {
        room_id_ok(self@)
    }

    /// Parses a room identifier; succeeds exactly on the strings the
    /// protocol's identifier grammar accepts.
    pub fn parse(s: &str) -> (r: Result<RoomId, IdError>)
        ensures
            match r {
                Ok(id) => room_id_ok(s@) && id@ == s@,
                Err(_) => !room_id_ok(s@),
            },
    {
        if room_id_accepted(s) {
            Ok(RoomId { id: s.to_owned() })
        } else {
            Err(IdError)
        }
    }

    /// The identifier's string form.
    pub fn as_str(&self) -> (r: &str)
        ensures
            r@ == self@,
    {
        self.id.as_str()
    }
}

impl Clone for RoomId {
    /// Cloning keeps the identifier's characters.
    fn clone(&self) -> (r: Self)
        ensures
            r@ == self@,
    {
        proof {
            use_type_invariant(self);
        }
        RoomId { id: self.id.clone() }
    }
}

} // verus!
