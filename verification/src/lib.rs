//! In-memory session engine for a classroom activity service.
//!
//! A moderator creates a short-lived room identified by a three-letter code,
//! participants join and receive stable one-based slots, the moderator starts
//! a timed exercise, participants stream answers, and every connection
//! receives live broadcasts of the room's state.  This crate holds the whole
//! engine: the room registry, the per-room game-phase state machine, the
//! group table, the connection fan-out, the command protocol, and the
//! periodic sweeper.  The network edge (HTTP routes, websockets, the clock)
//! lives outside and hands the engine plain values.

pub mod bytes;
pub mod codec;
pub mod command;
pub mod fanout;
pub mod room;
pub mod session;
pub mod state;

use vstd::prelude::*;

verus! {

/// Why a registry operation or a dispatched command was rejected.
///
/// Every rejection leaves the registry unchanged apart from, where a room was
/// found, that room's last-interaction clock.
#[derive(Clone, Copy, Debug, PartialEq, Eq, Structural)]
pub enum RoomError {
    /// No room with the given code is registered.
    RoomNotFound,
    /// Thirty fresh-code draws all collided, or a room cannot take one more
    /// member slot.
    RoomFull,
    /// A join was attempted while the room's activity is running.
    GameAlreadyStarted,
    /// The slot is zero where a member slot is required, or larger than the
    /// member list.
    SlotOutOfRange,
    /// The slot was kicked; kicked slots never reconnect or command again.
    SlotKicked,
    /// The group id is zero or names no group of the room.
    GroupNotFound,
    /// The inbound envelope is not a well-formed command object, or an
    /// argument is missing or of the wrong type.
    MalformedCommand,
    /// The envelope parses but its command name is not known for the role.
    UnknownCommand,
}

/// A rejection as one readable line, for the boundary layer's log.
pub struct AnyError {
    pub err: String,
}

impl AnyError {
    /// The log line of one typed rejection.
    pub fn of_room_error(e: &RoomError) -> (r: AnyError)
        ensures
            r.err@ == match *e {
                RoomError::RoomNotFound => "the room does not exist"@,
                RoomError::RoomFull => "no room left"@,
                RoomError::GameAlreadyStarted => "the game is already running"@,
                RoomError::SlotOutOfRange => "no member holds this slot"@,
                RoomError::SlotKicked => "this slot was kicked"@,
                RoomError::GroupNotFound => "no such group"@,
                RoomError::MalformedCommand => "the command does not parse"@,
                RoomError::UnknownCommand => "unknown command"@,
            },
    {
        let err = match e {
            RoomError::RoomNotFound => "the room does not exist".to_owned(),
            RoomError::RoomFull => "no room left".to_owned(),
            RoomError::GameAlreadyStarted => "the game is already running".to_owned(),
            RoomError::SlotOutOfRange => "no member holds this slot".to_owned(),
            RoomError::SlotKicked => "this slot was kicked".to_owned(),
            RoomError::GroupNotFound => "no such group".to_owned(),
            RoomError::MalformedCommand => "the command does not parse".to_owned(),
            RoomError::UnknownCommand => "unknown command".to_owned(),
        };
        AnyError { err }
    }
}

} // verus!
