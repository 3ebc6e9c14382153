//! Typed command and event envelopes of the wire protocol.
//!
//! Inbound frames decode into [`MasterCommand`] (slot zero, the moderator)
//! or [`MemberCommand`] (member slots).  Outbound broadcasts are
//! [`ServerCommand`] values, encoded as tagged JSON objects.  Free-text
//! fields travel as UTF-8 bytes exactly as they appeared on the wire.

use vstd::prelude::*;

verus! {

/// A command that only the moderator connection (slot zero) may issue.
#[derive(Debug)]
pub enum MasterCommand {
    /// Clear all answers and start the activity timer.
    Start,
    /// Freeze the answer aggregate and end the activity.
    Finish,
    /// Extend the running activity's deadline by `seconds`.
    ExtraTime { seconds: u32 },
    /// Remove the room from the registry.
    CloseRoom,
    /// Allocate a new group under the smallest unused id.
    CreateGroup,
    /// Rename an existing group other than the default group.
    SetGroupName { group: u32, name: Vec<u8> },
    /// Recolor an existing group other than the default group.
    SetGroupColor { group: u32, color: Vec<u8> },
    /// Delete a group other than the default group; its members move to
    /// the default group.
    RemoveGroup { group: u32 },
    /// Set the configured activity duration in seconds.
    SetTime { seconds: u32 },
    /// Set the free-form question-set identifier.
    SetQuestions { questions: Vec<u8> },
    /// Mark a member slot as kicked and close its connections.
    Kick { sckid: u32 },
}

/// A command that a member connection (slot one and up) may issue.
#[derive(Debug)]
pub enum MemberCommand {
    /// Change the member's display name.
    SetName { name: Vec<u8> },
    /// Move the member to an existing group.
    SetGroup { group: u32 },
    /// Record or overwrite the member's answer to one question.
    Answer { question: u32, answer: u32 },
}

/// One member as broadcast to clients: slot, name, group id, and how many
/// questions the member has answered.
#[derive(Debug)]
pub struct Member {
    pub sckid: u32,
    pub name: Vec<u8>,
    pub group: u32,
    pub answers: u32,
}

/// One recorded answer: the question index and the chosen answer index.
#[derive(Clone, Copy, Debug, PartialEq, Eq, Structural)]
pub struct Answer {
    pub question: u32,
    pub answer: u32,
}

/// One member together with every answer the member has recorded.
#[derive(Debug)]
pub struct MemberAnswers {
    pub member: Member,
    pub answers: Vec<Answer>,
}

/// An outbound event, broadcast to a room audience as a tagged JSON object.
#[derive(Debug)]
pub enum ServerCommand {
    /// The activity started or a snapshot reports it running; `remaining`
    /// is in seconds.
    Started { remaining: u32 },
    /// The activity ended; carries the frozen answer aggregate.
    Finished { answers: Vec<MemberAnswers> },
    /// The running activity's deadline grew by `seconds`.
    ExtraTime { seconds: u32 },
    /// The room configuration changed.
    RoomChanged { game_time: u32, questions: Vec<u8> },
    /// A group was created or one of its fields changed.
    GroupUpdated { group: u32, name: Vec<u8>, color: Vec<u8> },
    /// A group was deleted.
    GroupRemoved { group: u32 },
    /// The current answer aggregate, for the moderator or for one member.
    AnswersChanged { answers: Vec<MemberAnswers> },
    /// The roster of currently present members.
    MembersChanged { members: Vec<Member> },
    /// One member recorded an answer.
    AnswerUpdated { answer: Answer, member: Member },
    /// One member's public fields changed or the member came online.
    MemberUpdated { member: Member },
    /// A member went offline or was kicked.
    MemberRemoved { sckid: u32 },
    /// The room is gone; the connection will not receive further events.
    RoomClosed,
}

/// The mathematical value of a [`MasterCommand`].
#[verifier::ext_equal]
pub ghost enum MasterCmdV {
    Start,
    Finish,
    ExtraTime { seconds: u32 },
    CloseRoom,
    CreateGroup,
    SetGroupName { group: u32, name: Seq<u8> },
    SetGroupColor { group: u32, color: Seq<u8> },
    RemoveGroup { group: u32 },
    SetTime { seconds: u32 },
    SetQuestions { questions: Seq<u8> },
    Kick { sckid: u32 },
}

impl View for MasterCommand {
    type V = MasterCmdV;

    open spec fn view(&self) -> MasterCmdV {
        match *self {
            MasterCommand::Start => MasterCmdV::Start,
            MasterCommand::Finish => MasterCmdV::Finish,
            MasterCommand::ExtraTime { seconds } => MasterCmdV::ExtraTime { seconds },
            MasterCommand::CloseRoom => MasterCmdV::CloseRoom,
            MasterCommand::CreateGroup => MasterCmdV::CreateGroup,
            MasterCommand::SetGroupName { group, name } => MasterCmdV::SetGroupName {
                group,
                name: name@,
            },
            MasterCommand::SetGroupColor { group, color } => MasterCmdV::SetGroupColor {
                group,
                color: color@,
            },
            MasterCommand::RemoveGroup { group } => MasterCmdV::RemoveGroup { group },
            MasterCommand::SetTime { seconds } => MasterCmdV::SetTime { seconds },
            MasterCommand::SetQuestions { questions } => MasterCmdV::SetQuestions {
                questions: questions@,
            },
            MasterCommand::Kick { sckid } => MasterCmdV::Kick { sckid },
        }
    }
}

/// The mathematical value of a [`MemberCommand`].
#[verifier::ext_equal]
pub ghost enum MemberCmdV {
    SetName { name: Seq<u8> },
    SetGroup { group: u32 },
    Answer { question: u32, answer: u32 },
}

impl View for MemberCommand {
    type V = MemberCmdV;

    open spec fn view(&self) -> MemberCmdV {
        match *self {
            MemberCommand::SetName { name } => MemberCmdV::SetName { name: name@ },
            MemberCommand::SetGroup { group } => MemberCmdV::SetGroup { group },
            MemberCommand::Answer { question, answer } => MemberCmdV::Answer { question, answer },
        }
    }
}

/// The mathematical value of a wire [`Member`].
#[verifier::ext_equal]
pub ghost struct MemberV {
    pub sckid: u32,
    pub name: Seq<u8>,
    pub group: u32,
    pub answers: u32,
}

impl View for Member {
    type V = MemberV;

    open spec fn view(&self) -> MemberV {
        MemberV { sckid: self.sckid, name: self.name@, group: self.group, answers: self.answers }
    }
}

/// The mathematical value of a wire [`MemberAnswers`].
#[verifier::ext_equal]
pub ghost struct MemberAnswersV {
    pub member: MemberV,
    pub answers: Seq<Answer>,
}

impl View for MemberAnswers {
    type V = MemberAnswersV;

    open spec fn view(&self) -> MemberAnswersV {
        MemberAnswersV { member: self.member@, answers: self.answers@ }
    }
}

/// The mathematical value of a [`ServerCommand`].
#[verifier::ext_equal]
pub ghost enum EventV {
    Started { remaining: u32 },
    Finished { answers: Seq<MemberAnswersV> },
    ExtraTime { seconds: u32 },
    RoomChanged { game_time: u32, questions: Seq<u8> },
    GroupUpdated { group: u32, name: Seq<u8>, color: Seq<u8> },
    GroupRemoved { group: u32 },
    AnswersChanged { answers: Seq<MemberAnswersV> },
    MembersChanged { members: Seq<MemberV> },
    AnswerUpdated { answer: Answer, member: MemberV },
    MemberUpdated { member: MemberV },
    MemberRemoved { sckid: u32 },
    RoomClosed,
}

/// The values of a sequence of wire members.
pub open spec fn members_view(s: Seq<Member>) -> Seq<MemberV> {
    s.map_values(|m: Member| m@)
}

/// The values of a sequence of member-answer records.
pub open spec fn member_answers_view(s: Seq<MemberAnswers>) -> Seq<MemberAnswersV> {
    s.map_values(|ma: MemberAnswers| ma@)
}

impl View for ServerCommand {
    type V = EventV;

    open spec fn view(&self) -> EventV {
        match *self {
            ServerCommand::Started { remaining } => EventV::Started { remaining },
            ServerCommand::Finished { answers } => EventV::Finished {
                answers: member_answers_view(answers@),
            },
            ServerCommand::ExtraTime { seconds } => EventV::ExtraTime { seconds },
            ServerCommand::RoomChanged { game_time, questions } => EventV::RoomChanged {
                game_time,
                questions: questions@,
            },
            ServerCommand::GroupUpdated { group, name, color } => EventV::GroupUpdated {
                group,
                name: name@,
                color: color@,
            },
            ServerCommand::GroupRemoved { group } => EventV::GroupRemoved { group },
            ServerCommand::AnswersChanged { answers } => EventV::AnswersChanged {
                answers: member_answers_view(answers@),
            },
            ServerCommand::MembersChanged { members } => EventV::MembersChanged {
                members: members_view(members@),
            },
            ServerCommand::AnswerUpdated { answer, member } => EventV::AnswerUpdated {
                answer,
                member: member@,
            },
            ServerCommand::MemberUpdated { member } => EventV::MemberUpdated { member: member@ },
            ServerCommand::MemberRemoved { sckid } => EventV::MemberRemoved { sckid },
            ServerCommand::RoomClosed => EventV::RoomClosed,
        }
    }
}

} // verus!
