//! One room: its members, groups, game phase, connections and clocks.
//!
//! Every mutating operation's contract relates the room's mathematical
//! value — [`RoomV`], which includes the full broadcast history of every
//! audience — before and after the call.

use vstd::prelude::*;

use crate::bytes::copy_bytes;
use crate::codec::enc_event;
use crate::command::{Answer, EventV, MemberV};
use crate::fanout::Connections;
use crate::RoomError;

verus! {

use vstd::string::StringSliceAdditionalSpecFns;

/// The upper bound on member slots: a slot must fit in `u32`.
pub open spec fn max_members() -> nat {
    0xFFFF_FFFE
}

/// One team within a room.  Group id zero is the permanent default bucket.
pub struct Group {
    pub id: u32,
    pub name: Vec<u8>,
    pub color: Vec<u8>,
}

/// The mathematical value of a [`Group`].
#[verifier::ext_equal]
pub ghost struct GroupV {
    pub id: u32,
    pub name: Seq<u8>,
    pub color: Seq<u8>,
}

impl View for Group {
    type V = GroupV;

    open spec fn view(&self) -> GroupV {
        GroupV { id: self.id, name: self.name@, color: self.color@ }
    }
}

/// One participant: a stable slot, mutable profile, answers, and the
/// fan-out of this member's own connections.
pub struct Member {
    pub sckid: u32,
    pub online: u64,
    pub name: Vec<u8>,
    pub group: u32,
    pub conns: Connections,
    pub answers: Vec<Answer>,
    pub kicked: bool,
}

/// The mathematical value of a [`Member`]; `sent` is everything this
/// member's audience was ever sent.
#[verifier::ext_equal]
pub ghost struct MemberSt {
    pub sckid: u32,
    pub online: u64,
    pub name: Seq<u8>,
    pub group: u32,
    pub sent: Seq<Seq<u8>>,
    pub answers: Seq<Answer>,
    pub kicked: bool,
}

impl View for Member {
    type V = MemberSt;

    open spec fn view(&self) -> MemberSt {
        MemberSt {
            sckid: self.sckid,
            online: self.online,
            name: self.name@,
            group: self.group,
            sent: self.conns.history(),
            answers: self.answers@,
            kicked: self.kicked,
        }
    }
}

/// The game phase of one room's timed activity.
pub enum Game {
    /// No timer running yet, or the room was never started.
    Idle,
    /// The timer runs; the deadline is `start + event_time + extra`.
    Started { start: u64, extra: u32 },
    /// The activity is over; `message` is the cached finished event that
    /// late connections replay.
    Ended { message: Vec<u8> },
}

/// The mathematical value of a [`Game`].
#[verifier::ext_equal]
pub ghost enum GameV {
    Idle,
    Started { start: u64, extra: u32 },
    Ended { message: Seq<u8> },
}

impl View for Game {
    type V = GameV;

    open spec fn view(&self) -> GameV {
        match *self {
            Game::Idle => GameV::Idle,
            Game::Started { start, extra } => GameV::Started { start, extra },
            Game::Ended { message } => GameV::Ended { message: message@ },
        }
    }
}

impl Game {
    /// True exactly in the `Started` phase.
    pub fn is_started(&self) -> (r: bool)
        ensures
            r == (self@ is Started),
    {
        matches!(self, Self::Started { .. })
    }
}

/// One activity room.
pub struct Room {
    pub last_interaction: u64,
    pub game: Game,
    pub event_time: u32,
    pub question_pool: Vec<u8>,
    pub members: Vec<Member>,
    pub groups: Vec<Group>,
    /// The moderator audience: connections of slot zero.
    pub conns: Connections,
}

/// The mathematical value of a [`Room`]; `sent` is everything the
/// moderator audience was ever sent.
#[verifier::ext_equal]
pub ghost struct RoomV {
    pub last_interaction: u64,
    pub game: GameV,
    pub event_time: u32,
    pub question_pool: Seq<u8>,
    pub members: Seq<MemberSt>,
    pub groups: Seq<GroupV>,
    pub sent: Seq<Seq<u8>>,
}

impl View for Room {
    type V = RoomV;

    open spec fn view(&self) -> RoomV {
        RoomV {
            last_interaction: self.last_interaction,
            game: self.game@,
            event_time: self.event_time,
            question_pool: self.question_pool@,
            members: self.members@.map_values(|m: Member| m@),
            groups: self.groups@.map_values(|g: Group| g@),
            sent: self.conns.history(),
        }
    }
}

/// No two answers of one member concern the same question.
pub open spec fn keys_unique(s: Seq<Answer>) -> bool {
    forall|i: int, j: int| 0 <= i < j < s.len() ==> s[i].question != s[j].question
}

/// One member's answers stand in strictly ascending question order — the
/// order in which the aggregate puts them on the wire.
pub open spec fn questions_sorted(s: Seq<Answer>) -> bool {
    forall|i: int, j: int| 0 <= i < j < s.len() ==> s[i].question < s[j].question
}

/// Ascending question order leaves no room for a duplicate question.
pub proof fn lemma_sorted_unique(s: Seq<Answer>)
    requires
        questions_sorted(s),
    ensures
        keys_unique(s),
{
}

/// The answers of one member as a map from question to latest answer.
pub open spec fn map_of(s: Seq<Answer>) -> Map<u32, u32>
    decreases s.len(),
{
    if s.len() == 0 {
        Map::empty()
    } else {
        map_of(s.drop_last()).insert(s.last().question, s.last().answer)
    }
}

/// Some group of the room carries this id.
pub open spec fn group_exists(gs: Seq<GroupV>, id: u32) -> bool {
    exists|i: int| 0 <= i < gs.len() && gs[i].id == id
}

impl MemberSt {
    /// A member appears in rosters while it is online and not kicked.
    pub open spec fn present(&self) -> bool {
        self.online > 0 && !self.kicked
    }

    /// How the member appears on the wire; the answer count saturates at
    /// the largest `u32`.
    pub open spec fn wire(&self) -> MemberV {
        MemberV {
            sckid: self.sckid,
            name: self.name,
            group: self.group,
            answers: if self.answers.len() > 0xFFFF_FFFF {
                0xFFFF_FFFFu32
            } else {
                self.answers.len() as u32
            },
        }
    }
}

/// The room's internal invariant: the default group stands first and group
/// ids rise strictly (so ids are unique), slots equal list position plus
/// one, every member's answers stand in ascending question order (so
/// questions are unique), and every member's group id names a group.
pub open spec fn room_wf(r: RoomV) -> bool {
    &&& 1 <= r.groups.len() <= 0xFFFF_FFFF
    &&& r.groups[0].id == 0
    &&& forall|i: int, j: int| 0 <= i < j < r.groups.len() ==> r.groups[i].id < r.groups[j].id
    &&& r.members.len() <= max_members()
    &&& forall|i: int| 0 <= i < r.members.len() ==> (#[trigger] r.members[i]).sckid == i + 1
    &&& forall|i: int|
        0 <= i < r.members.len() ==> questions_sorted((#[trigger] r.members[i]).answers)
    &&& forall|i: int|
        0 <= i < r.members.len() ==> group_exists(r.groups, (#[trigger] r.members[i]).group)
}

/// The roster broadcast to clients: present members, in slot order.
pub open spec fn roster_of(s: Seq<MemberSt>) -> Seq<MemberV>
    decreases s.len(),
{
    if s.len() == 0 {
        Seq::empty()
    } else if s.last().present() {
        roster_of(s.drop_last()).push(s.last().wire())
    } else {
        roster_of(s.drop_last())
    }
}

/// The answer aggregate over present members, in slot order.
pub open spec fn aggregate_of(s: Seq<MemberSt>) -> Seq<crate::command::MemberAnswersV>
    decreases s.len(),
{
    if s.len() == 0 {
        Seq::empty()
    } else if s.last().present() {
        aggregate_of(s.drop_last()).push(
            crate::command::MemberAnswersV { member: s.last().wire(), answers: s.last().answers },
        )
    } else {
        aggregate_of(s.drop_last())
    }
}


/// Rosters agree whenever presence and wire form agree member by member;
/// in particular a broadcast, which only extends histories, keeps the
/// roster.
pub proof fn lemma_roster_same(a: Seq<MemberSt>, b: Seq<MemberSt>)
    requires
        a.len() == b.len(),
        forall|i: int|
            0 <= i < a.len() ==> (#[trigger] a[i]).present() == b[i].present() && a[i].wire()
                == b[i].wire(),
    ensures
        roster_of(a) == roster_of(b),
    decreases a.len(),
{
    if a.len() > 0 {
        lemma_roster_same(a.drop_last(), b.drop_last());
        assert(roster_of(a) =~= roster_of(b));
    } else {
        assert(roster_of(a) =~= roster_of(b));
    }
}

/// Well-formedness carries over to any room whose group ids and whose
/// members' slots, answers and group ids agree with a well-formed one.
pub proof fn lemma_wf_like(a: RoomV, b: RoomV)
    requires
        room_wf(a),
        a.groups.len() == b.groups.len(),
        forall|i: int| 0 <= i < a.groups.len() ==> (#[trigger] b.groups[i]).id == a.groups[i].id,
        a.members.len() == b.members.len(),
        forall|i: int|
            0 <= i < a.members.len() ==> (#[trigger] b.members[i]).sckid == a.members[i].sckid
                && b.members[i].answers == a.members[i].answers && b.members[i].group
                == a.members[i].group,
    ensures
        room_wf(b),
{
    assert forall|i: int|
        0 <= i < b.members.len() implies group_exists(
        b.groups,
        (#[trigger] b.members[i]).group,
    ) by {
        assert(group_exists(a.groups, a.members[i].group));
        let j = choose|j: int| 0 <= j < a.groups.len() && a.groups[j].id == a.members[i].group;
        assert(b.groups[j].id == b.members[i].group);
    }
}

/// The configuration event of a room.
pub open spec fn room_changed_v(r: RoomV) -> EventV {
    EventV::RoomChanged { game_time: r.event_time, questions: r.question_pool }
}

/// A room after one message went to the moderator audience alone.
pub open spec fn sent_master(r: RoomV, msg: Seq<u8>) -> RoomV {
    RoomV { sent: r.sent.push(msg), ..r }
}

/// A room after one message went to every member audience.
pub open spec fn sent_members(r: RoomV, msg: Seq<u8>) -> RoomV {
    RoomV { members: r.members.map_values(|m: MemberSt| MemberSt { sent: m.sent.push(msg), ..m }), ..r }
}

/// A room after one message went to the moderator and every member.
pub open spec fn sent_all(r: RoomV, msg: Seq<u8>) -> RoomV {
    sent_members(sent_master(r, msg), msg)
}

impl Room {
    /// A fresh room: idle, five-minute default duration, the default
    /// question set, only the default group, no members, no connections.
    pub fn new(now: u64) -> (r: Self)
        ensures
            r@ == fresh_room(now),
    {
        let r = Room {
            last_interaction: now,
            game: Game::Idle,
            event_time: 300,
            question_pool: default_pool(),
            members: Vec::new(),
            groups: default_groups(),
            conns: Connections::new(),
        };
        proof {
            assert(r@ =~~= fresh_room(now));
        }
        r
    }

    /// Refreshes the idle-eviction clock.
    pub fn interacted(&mut self, now: u64)
        ensures
            final(self)@ == (RoomV { last_interaction: now, ..old(self)@ }),
            *final(self) == (Room { last_interaction: now, ..*old(self) }),
    {
        self.last_interaction = now;
        proof {
            assert(self@ =~~= RoomV { last_interaction: now, ..old(self)@ });
        }
    }

    /// Sends one encoded message to the moderator audience.
    pub fn send_master(&mut self, message: &Vec<u8>)
        ensures
            final(self)@ == sent_master(old(self)@, message@),
            final(self).conns.count() <= old(self).conns.count(),
            final(self).members == old(self).members,
    {
        self.conns.send(message);
        proof {
            assert(self@ =~~= sent_master(old(self)@, message@));
        }
    }

    /// Sends one encoded message to every member audience.
    pub fn send_members(&mut self, message: &Vec<u8>)
        ensures
            final(self)@ == sent_members(old(self)@, message@),
            final(self).conns == old(self).conns,
            forall|i: int|
                0 <= i < old(self).members@.len() ==> final(self).members@[i].conns.count() <= old(
                    self,
                ).members@[i].conns.count(),
    {
        let mut i: usize = 0;
        while i < self.members.len()
            invariant
                i <= self.members@.len(),
                self.members@.len() == old(self).members@.len(),
                self.last_interaction == old(self).last_interaction,
                self.game == old(self).game,
                self.event_time == old(self).event_time,
                self.question_pool == old(self).question_pool,
                self.groups == old(self).groups,
                self.conns == old(self).conns,
                forall|j: int|
                    0 <= j < i ==> #[trigger] self.members@[j]@ == (MemberSt {
                        sent: old(self).members@[j]@.sent.push(message@),
                        ..old(self).members@[j]@
                    }),
                forall|j: int|
                    0 <= j < i ==> #[trigger] self.members@[j].conns.count() <= old(
                        self,
                    ).members@[j].conns.count(),
                forall|j: int|
                    i <= j < self.members@.len() ==> #[trigger] self.members@[j] == old(
                        self,
                    ).members@[j],
            decreases self.members@.len() - i,
        {
            self.members[i].conns.send(message);
            i += 1;
        }
        proof {
            assert(self@ =~~= sent_members(old(self)@, message@));
        }
    }

    /// Sends one encoded message to the moderator and every member.
    pub fn send_all(&mut self, message: &Vec<u8>)
        ensures
            final(self)@ == sent_all(old(self)@, message@),
            final(self).conns.count() <= old(self).conns.count(),
            forall|i: int|
                0 <= i < old(self).members@.len() ==> final(self).members@[i].conns.count() <= old(
                    self,
                ).members@[i].conns.count(),
    {
        self.send_master(message);
        self.send_members(message);
        proof {
            assert(self@ =~~= sent_all(old(self)@, message@));
        }
    }

    /// The roster of present members as broadcast to clients.
    pub fn get_group_members(&self) -> (r: Vec<crate::command::Member>)
        ensures
            crate::command::members_view(r@) == roster_of(self@.members),
    {
        let mut out: Vec<crate::command::Member> = Vec::new();
        let mut i: usize = 0;
        while i < self.members.len()
            invariant
                i <= self.members@.len(),
                crate::command::members_view(out@) =~= roster_of(
                    self@.members.subrange(0, i as int),
                ),
            decreases self.members@.len() - i,
        {
            let m = &self.members[i];
            if m.online > 0 && !m.kicked {
                out.push(wire_member(m));
            }
            proof {
                assert(self@.members.subrange(0, i + 1 as int).drop_last() =~= self@.members
                    .subrange(0, i as int));
                assert(self@.members.subrange(0, i + 1 as int).last() == self@.members[i as int]);
                assert(crate::command::members_view(out@) =~= roster_of(
                    self@.members.subrange(0, i + 1 as int),
                ));
            }
            i += 1;
        }
        proof {
            assert(self@.members.subrange(0, self@.members.len() as int) =~= self@.members);
        }
        out
    }

    /// The answer aggregate over present members as sent to the moderator;
    /// under the room invariant each member's answers stand in ascending
    /// question order.
    pub fn get_answers(&self) -> (r: Vec<crate::command::MemberAnswers>)
        ensures
            crate::command::member_answers_view(r@) == aggregate_of(self@.members),
    {
        let mut out: Vec<crate::command::MemberAnswers> = Vec::new();
        let mut i: usize = 0;
        while i < self.members.len()
            invariant
                i <= self.members@.len(),
                crate::command::member_answers_view(out@) =~= aggregate_of(
                    self@.members.subrange(0, i as int),
                ),
            decreases self.members@.len() - i,
        {
            let m = &self.members[i];
            if m.online > 0 && !m.kicked {
                out.push(member_answers_entry(m));
            }
            proof {
                assert(self@.members.subrange(0, i + 1 as int).drop_last() =~= self@.members
                    .subrange(0, i as int));
                assert(self@.members.subrange(0, i + 1 as int).last() == self@.members[i as int]);
                assert(crate::command::member_answers_view(out@) =~= aggregate_of(
                    self@.members.subrange(0, i + 1 as int),
                ));
            }
            i += 1;
        }
        proof {
            assert(self@.members.subrange(0, self@.members.len() as int) =~= self@.members);
        }
        out
    }

    /// The configuration event describing this room.
    pub fn into_message(&self) -> (r: crate::command::ServerCommand)
        ensures
            r@ == room_changed_v(self@),
    {
        crate::command::ServerCommand::RoomChanged {
            game_time: self.event_time,
            questions: copy_bytes(&self.question_pool),
        }
    }
}

/// The value of a fresh room created at `now`.
pub open spec fn fresh_room(now: u64) -> RoomV {
    RoomV {
        last_interaction: now,
        game: GameV::Idle,
        event_time: 300,
        question_pool: "default".spec_bytes(),
        members: Seq::empty(),
        groups: seq![default_group_v()],
        sent: Seq::empty(),
    }
}

/// The permanent default group: id zero.
pub open spec fn default_group_v() -> GroupV {
    GroupV { id: 0, name: "Grupo".spec_bytes(), color: "68,68,170".spec_bytes() }
}

fn default_pool() -> (r: Vec<u8>)
    ensures
        r@ == "default".spec_bytes(),
{
    let mut out: Vec<u8> = Vec::new();
    crate::bytes::push_str_bytes(&mut out, "default");
    out
}

fn default_groups() -> (r: Vec<Group>)
    ensures
        r@.map_values(|g: Group| g@) =~= seq![default_group_v()],
{
    let mut name: Vec<u8> = Vec::new();
    crate::bytes::push_str_bytes(&mut name, "Grupo");
    let mut color: Vec<u8> = Vec::new();
    crate::bytes::push_str_bytes(&mut color, "68,68,170");
    let mut out: Vec<Group> = Vec::new();
    out.push(Group { id: 0, name, color });
    out
}

/// The wire form of one member.
pub(crate) fn wire_member(m: &Member) -> (r: crate::command::Member)
    ensures
        r@ == m@.wire(),
{
    let count: u32 = if m.answers.len() >= 0xFFFF_FFFFusize {
        0xFFFF_FFFFu32
    } else {
        m.answers.len() as u32
    };
    crate::command::Member {
        sckid: m.sckid,
        name: copy_bytes(&m.name),
        group: m.group,
        answers: count,
    }
}

/// One member's aggregate entry: its wire form and all recorded answers.
pub(crate) fn member_answers_entry(m: &Member) -> (r: crate::command::MemberAnswers)
    ensures
        r@ == (crate::command::MemberAnswersV { member: m@.wire(), answers: m@.answers }),
{
    let mut answers: Vec<Answer> = Vec::new();
    let mut i: usize = 0;
    while i < m.answers.len()
        invariant
            i <= m.answers@.len(),
            answers@ =~= m.answers@.subrange(0, i as int),
        decreases m.answers@.len() - i,
    {
        answers.push(m.answers[i]);
        i += 1;
    }
    proof {
        assert(answers@ =~= m.answers@);
    }
    crate::command::MemberAnswers { member: wire_member(m), answers }
}

/// `a + b`, capped at the largest `u32`.
pub open spec fn sat_add32(a: u32, b: u32) -> u32 {
    if a + b > 0xFFFF_FFFF {
        0xFFFF_FFFFu32
    } else {
        (a + b) as u32
    }
}

/// A room after the moderator set the activity duration: a change
/// broadcasts the new configuration to all, an unchanged value does
/// nothing.
pub open spec fn set_time_step(pre: RoomV, seconds: u32) -> RoomV {
    if pre.event_time == seconds {
        pre
    } else {
        let r1 = RoomV { event_time: seconds, ..pre };
        sent_all(r1, enc_event(room_changed_v(r1)))
    }
}

/// A room after the moderator set the question set: a change broadcasts
/// the new configuration to all, an unchanged value does nothing.
pub open spec fn set_questions_step(pre: RoomV, questions: Seq<u8>) -> RoomV {
    if pre.question_pool == questions {
        pre
    } else {
        let r1 = RoomV { question_pool: questions, ..pre };
        sent_all(r1, enc_event(room_changed_v(r1)))
    }
}

/// A room after an extra-time command: only a running activity is
/// extended, and the extension is broadcast to all.
pub open spec fn extra_step(pre: RoomV, seconds: u32) -> RoomV {
    match pre.game {
        GameV::Started { start, extra } => {
            let r1 = RoomV {
                game: GameV::Started { start, extra: sat_add32(extra, seconds) },
                ..pre
            };
            sent_all(r1, enc_event(EventV::ExtraTime { seconds }))
        },
        _ => pre,
    }
}

/// The frozen finished event of a room: the aggregate over present
/// members at the moment the activity ends.
pub open spec fn finished_msg(r: RoomV) -> Seq<u8> {
    enc_event(EventV::Finished { answers: aggregate_of(r.members) })
}

/// A room after a finish command or a deadline sweep: a running activity
/// ends, the finished event goes to all and is cached; any other phase is
/// left alone.
pub open spec fn finish_step(pre: RoomV) -> RoomV {
    if pre.game is Started {
        let msg = finished_msg(pre);
        let r1 = sent_all(pre, msg);
        RoomV { game: GameV::Ended { message: msg }, ..r1 }
    } else {
        pre
    }
}

impl Room {
    /// Sets the configured activity duration; broadcasts the configuration
    /// exactly when the value changed.
    pub fn cmd_set_time(&mut self, seconds: u32)
        ensures
            final(self)@ == set_time_step(old(self)@, seconds),
    {
        if self.event_time != seconds {
            self.event_time = seconds;
            let e = self.into_message();
            let msg = crate::codec::encode_event(&e);
            self.send_all(&msg);
            proof {
                assert(self@ =~~= set_time_step(old(self)@, seconds));
            }
        }
    }

    /// Sets the question-set identifier; broadcasts the configuration
    /// exactly when the value changed.
    pub fn cmd_set_questions(&mut self, questions: Vec<u8>)
        ensures
            final(self)@ == set_questions_step(old(self)@, questions@),
    {
        if !crate::bytes::bytes_eq(self.question_pool.as_slice(), questions.as_slice()) {
            self.question_pool = questions;
            let e = self.into_message();
            let msg = crate::codec::encode_event(&e);
            self.send_all(&msg);
            proof {
                assert(self@ =~~= set_questions_step(old(self)@, questions@));
            }
        }
    }

    /// Extends a running activity's deadline and tells every audience;
    /// does nothing unless the activity runs.
    pub fn cmd_extra_time(&mut self, seconds: u32)
        ensures
            final(self)@ == extra_step(old(self)@, seconds),
    {
        let mut was_started = false;
        match &mut self.game {
            Game::Started { start: _, extra } => {
                let e: u32 = *extra;
                *extra = if e > 0xFFFF_FFFFu32 - seconds {
                    0xFFFF_FFFFu32
                } else {
                    e + seconds
                };
                was_started = true;
            },
            _ => {},
        }
        if was_started {
            let e = crate::command::ServerCommand::ExtraTime { seconds };
            let msg = crate::codec::encode_event(&e);
            self.send_all(&msg);
        }
        proof {
            assert(self@ =~~= extra_step(old(self)@, seconds));
        }
    }

    /// Ends a running activity: broadcasts the frozen aggregate to all and
    /// caches that exact message for late connections.  Does nothing
    /// unless the activity runs.
    pub fn cmd_finish(&mut self)
        ensures
            final(self)@ == finish_step(old(self)@),
    {
        if self.game.is_started() {
            let answers = self.get_answers();
            let e = crate::command::ServerCommand::Finished { answers };
            let msg = crate::codec::encode_event(&e);
            self.send_all(&msg);
            self.game = Game::Ended { message: msg };
            proof {
                assert(self@ =~~= finish_step(old(self)@));
            }
        }
    }
}


/// The member-updated messages replayed at a start: one per present
/// member, in slot order.
pub open spec fn member_updates_of(s: Seq<MemberSt>) -> Seq<Seq<u8>>
    decreases s.len(),
{
    if s.len() == 0 {
        Seq::empty()
    } else if s.last().present() {
        member_updates_of(s.drop_last()).push(
            enc_event(EventV::MemberUpdated { member: s.last().wire() }),
        )
    } else {
        member_updates_of(s.drop_last())
    }
}

/// Members with all answers cleared.
pub open spec fn cleared_members(s: Seq<MemberSt>) -> Seq<MemberSt> {
    s.map_values(|m: MemberSt| MemberSt { answers: Seq::empty(), ..m })
}

/// A room after a start command: answers cleared, the moderator shown
/// each present member afresh, the start broadcast to all, and the timer
/// running from `now`.  A room whose activity already runs is left alone.
pub open spec fn start_step(pre: RoomV, now: u64) -> RoomV {
    if pre.game is Started {
        pre
    } else {
        let r0 = RoomV { members: cleared_members(pre.members), ..pre };
        let r1 = RoomV { sent: r0.sent + member_updates_of(r0.members), ..r0 };
        let r2 = sent_all(r1, enc_event(EventV::Started { remaining: pre.event_time }));
        RoomV { game: GameV::Started { start: now, extra: 0 }, ..r2 }
    }
}

/// The index of the group carrying `id`, where one exists.
pub open spec fn group_idx(gs: Seq<GroupV>, id: u32) -> int {
    choose|i: int| 0 <= i < gs.len() && gs[i].id == id
}

/// A room after a valid group rename.
pub open spec fn set_group_name_step(pre: RoomV, gi: int, name: Seq<u8>) -> RoomV {
    let g0 = pre.groups[gi];
    let r1 = RoomV { groups: pre.groups.update(gi, GroupV { name, ..g0 }), ..pre };
    let r2 = sent_all(
        r1,
        enc_event(EventV::GroupUpdated { group: g0.id, name, color: g0.color }),
    );
    sent_all(r2, enc_event(EventV::MembersChanged { members: roster_of(pre.members) }))
}

/// A room after a valid group recolor.
pub open spec fn set_group_color_step(pre: RoomV, gi: int, color: Seq<u8>) -> RoomV {
    let g0 = pre.groups[gi];
    let r1 = RoomV { groups: pre.groups.update(gi, GroupV { color, ..g0 }), ..pre };
    let r2 = sent_all(
        r1,
        enc_event(EventV::GroupUpdated { group: g0.id, name: g0.name, color }),
    );
    sent_all(r2, enc_event(EventV::MembersChanged { members: roster_of(pre.members) }))
}

impl Room {
    /// Starts the activity: clears every answer, replays each present
    /// member to the moderator, broadcasts the start with the configured
    /// duration, and sets the timer running.  Does nothing while the
    /// activity already runs; restarting an ended activity is allowed.
    pub fn cmd_start(&mut self, now: u64)
        ensures
            final(self)@ == start_step(old(self)@, now),
    {
        if self.game.is_started() {
            return ;
        }
        let mut i: usize = 0;
        while i < self.members.len()
            invariant
                i <= self.members@.len(),
                self.members@.len() == old(self).members@.len(),
                self.last_interaction == old(self).last_interaction,
                self.game == old(self).game,
                self.event_time == old(self).event_time,
                self.question_pool == old(self).question_pool,
                self.groups == old(self).groups,
                self.conns == old(self).conns,
                forall|j: int|
                    0 <= j < i ==> #[trigger] self.members@[j]@ == (MemberSt {
                        answers: Seq::empty(),
                        ..old(self).members@[j]@
                    }),
                forall|j: int|
                    i <= j < self.members@.len() ==> #[trigger] self.members@[j] == old(
                        self,
                    ).members@[j],
            decreases self.members@.len() - i,
        {
            self.members[i].answers = Vec::new();
            i += 1;
        }
        let ghost r0 = RoomV { members: cleared_members(old(self)@.members), ..old(self)@ };
        proof {
            assert(self@ =~~= r0);
        }
        let mut k: usize = 0;
        while k < self.members.len()
            invariant
                k <= self.members@.len(),
                self@ =~~= (RoomV {
                    sent: r0.sent + member_updates_of(r0.members.subrange(0, k as int)),
                    ..r0
                }),
                self.members@.len() == r0.members.len(),
            decreases self.members@.len() - k,
        {
            proof {
                assert(r0.members.subrange(0, k + 1 as int).drop_last() =~= r0.members.subrange(
                    0,
                    k as int,
                ));
                assert(r0.members.subrange(0, k + 1 as int).last() == r0.members[k as int]);
                assert(self@.members[k as int] == r0.members[k as int]);
            }
            if self.members[k].online > 0 && !self.members[k].kicked {
                let e = crate::command::ServerCommand::MemberUpdated {
                    member: wire_member(&self.members[k]),
                };
                let msg = crate::codec::encode_event(&e);
                self.conns.send(&msg);
                proof {
                    assert(self@ =~~= (RoomV {
                        sent: r0.sent + member_updates_of(r0.members.subrange(0, k + 1 as int)),
                        ..r0
                    }));
                }
            } else {
                proof {
                    assert(self@ =~~= (RoomV {
                        sent: r0.sent + member_updates_of(r0.members.subrange(0, k + 1 as int)),
                        ..r0
                    }));
                }
            }
            k += 1;
        }
        proof {
            assert(r0.members.subrange(0, r0.members.len() as int) =~= r0.members);
        }
        let e2 = crate::command::ServerCommand::Started { remaining: self.event_time };
        let msg2 = crate::codec::encode_event(&e2);
        self.send_all(&msg2);
        self.game = Game::Started { start: now, extra: 0 };
        proof {
            assert(self@ =~~= start_step(old(self)@, now));
        }
    }

    /// The position of the group carrying `id`, where the room has one.
    pub fn find_group(&self, id: u32) -> (r: Option<usize>)
        ensures
            match r {
                Some(i) => i < self.groups@.len() && self@.groups[i as int].id == id,
                None => !group_exists(self@.groups, id),
            },
    {
        let mut i: usize = 0;
        while i < self.groups.len()
            invariant
                i <= self.groups@.len(),
                forall|j: int| 0 <= j < i ==> self@.groups[j].id != id,
            decreases self.groups@.len() - i,
        {
            if self.groups[i].id == id {
                return Some(i);
            }
            i += 1;
        }
        None
    }

    /// Renames a group.  The default group (id zero) and unknown ids are
    /// refused and nothing changes; otherwise the new name is stored and
    /// the group and the roster are broadcast to all.
    #[verifier::rlimit(50)]
    pub fn cmd_set_group_name(&mut self, group: u32, name: Vec<u8>) -> (r: Result<(), RoomError>)
        requires
            room_wf(old(self)@),
        ensures
            room_wf(final(self)@),
            match r {
                Ok(()) => group != 0 && group_exists(old(self)@.groups, group) && final(self)@
                    == set_group_name_step(old(self)@, group_idx(old(self)@.groups, group), name@),
                Err(e) => {
                    &&& e == RoomError::GroupNotFound
                    &&& (group == 0 || !group_exists(old(self)@.groups, group))
                    &&& final(self)@ == old(self)@
                },
            },
    {
        if group == 0 {
            return Err(RoomError::GroupNotFound);
        }
        let gi = match self.find_group(group) {
            Some(gi) => gi,
            None => {
                return Err(RoomError::GroupNotFound);
            },
        };
        let ghost gidx = group_idx(old(self)@.groups, group);
        proof {
            assert(old(self)@.groups[gi as int].id == group);
            assert(0 <= gidx < old(self)@.groups.len() && old(self)@.groups[gidx].id == group);
            assert(gidx == gi as int);
        }
        let color = copy_bytes(&self.groups[gi].color);
        self.groups[gi].name = name;
        let e = crate::command::ServerCommand::GroupUpdated {
            group,
            name: copy_bytes(&self.groups[gi].name),
            color,
        };
        let msg = crate::codec::encode_event(&e);
        self.send_all(&msg);
        let roster = self.get_group_members();
        proof {
            lemma_roster_same(self@.members, old(self)@.members);
        }
        let e2 = crate::command::ServerCommand::MembersChanged { members: roster };
        let msg2 = crate::codec::encode_event(&e2);
        self.send_all(&msg2);
        proof {
            assert(self@ =~~= set_group_name_step(old(self)@, gi as int, name@));
            lemma_wf_like(old(self)@, self@);
        }
        Ok(())
    }

    /// Recolors a group.  The default group (id zero) and unknown ids are
    /// refused and nothing changes; otherwise the new color is stored and
    /// the group and the roster are broadcast to all.
    #[verifier::rlimit(50)]
    pub fn cmd_set_group_color(&mut self, group: u32, color: Vec<u8>) -> (r: Result<(), RoomError>)
        requires
            room_wf(old(self)@),
        ensures
            room_wf(final(self)@),
            match r {
                Ok(()) => group != 0 && group_exists(old(self)@.groups, group) && final(self)@
                    == set_group_color_step(
                    old(self)@,
                    group_idx(old(self)@.groups, group),
                    color@,
                ),
                Err(e) => {
                    &&& e == RoomError::GroupNotFound
                    &&& (group == 0 || !group_exists(old(self)@.groups, group))
                    &&& final(self)@ == old(self)@
                },
            },
    {
        if group == 0 {
            return Err(RoomError::GroupNotFound);
        }
        let gi = match self.find_group(group) {
            Some(gi) => gi,
            None => {
                return Err(RoomError::GroupNotFound);
            },
        };
        let ghost gidx = group_idx(old(self)@.groups, group);
        proof {
            assert(old(self)@.groups[gi as int].id == group);
            assert(0 <= gidx < old(self)@.groups.len() && old(self)@.groups[gidx].id == group);
            assert(gidx == gi as int);
        }
        let name = copy_bytes(&self.groups[gi].name);
        self.groups[gi].color = color;
        let e = crate::command::ServerCommand::GroupUpdated {
            group,
            name,
            color: copy_bytes(&self.groups[gi].color),
        };
        let msg = crate::codec::encode_event(&e);
        self.send_all(&msg);
        let roster = self.get_group_members();
        proof {
            lemma_roster_same(self@.members, old(self)@.members);
        }
        let e2 = crate::command::ServerCommand::MembersChanged { members: roster };
        let msg2 = crate::codec::encode_event(&e2);
        self.send_all(&msg2);
        proof {
            assert(self@ =~~= set_group_color_step(old(self)@, gi as int, color@));
            lemma_wf_like(old(self)@, self@);
        }
        Ok(())
    }
}


/// The palette color a new group gets, chosen by its id.
pub open spec fn palette(id: u32) -> Seq<u8> {
    let k = id % 6;
    if k == 0 {
        "170,68,68".spec_bytes()
    } else if k == 1 {
        "68,68,170".spec_bytes()
    } else if k == 2 {
        "68,170,68".spec_bytes()
    } else if k == 3 {
        "170,170,68".spec_bytes()
    } else if k == 4 {
        "68,170,170".spec_bytes()
    } else {
        "170,68,170".spec_bytes()
    }
}

/// The value of a newly created group: the default name and the palette
/// color of its id.
pub open spec fn new_group_v(id: u32) -> GroupV {
    GroupV { id, name: "Grupo".spec_bytes(), color: palette(id) }
}

/// A room after a create-group command allocating `id`.  Because the
/// ids below `id` are exactly the taken ones, the new group stands at
/// position `id`; the group and the roster are broadcast to all.
pub open spec fn create_group_step(pre: RoomV, id: u32) -> RoomV {
    let r1 = RoomV { groups: pre.groups.insert(id as int, new_group_v(id)), ..pre };
    let r2 = sent_all(
        r1,
        enc_event(
            EventV::GroupUpdated { group: id, name: "Grupo".spec_bytes(), color: palette(id) },
        ),
    );
    sent_all(r2, enc_event(EventV::MembersChanged { members: roster_of(pre.members) }))
}

/// Members after a group was removed: those of the removed group move to
/// the default group.
pub open spec fn regrouped_members(ms: Seq<MemberSt>, id: u32) -> Seq<MemberSt> {
    ms.map_values(
        |m: MemberSt|
            if m.group == id {
                MemberSt { group: 0, ..m }
            } else {
                m
            },
    )
}

/// A room after a valid remove-group command: the group goes, its members
/// move to the default group, and the removal and the new roster are
/// broadcast to all.
pub open spec fn remove_group_step(pre: RoomV, gi: int) -> RoomV {
    let id = pre.groups[gi].id;
    let ms = regrouped_members(pre.members, id);
    let r1 = RoomV { groups: pre.groups.remove(gi), members: ms, ..pre };
    let r2 = sent_all(r1, enc_event(EventV::GroupRemoved { group: id }));
    sent_all(r2, enc_event(EventV::MembersChanged { members: roster_of(ms) }))
}

fn palette_color(id: u32) -> (r: Vec<u8>)
    ensures
        r@ == palette(id),
{
    let mut out: Vec<u8> = Vec::new();
    let k = id % 6;
    if k == 0 {
        crate::bytes::push_str_bytes(&mut out, "170,68,68");
    } else if k == 1 {
        crate::bytes::push_str_bytes(&mut out, "68,68,170");
    } else if k == 2 {
        crate::bytes::push_str_bytes(&mut out, "68,170,68");
    } else if k == 3 {
        crate::bytes::push_str_bytes(&mut out, "170,170,68");
    } else if k == 4 {
        crate::bytes::push_str_bytes(&mut out, "68,170,170");
    } else {
        crate::bytes::push_str_bytes(&mut out, "170,68,170");
    }
    out
}

impl Room {
    /// Creates a group under the smallest id not yet taken (never zero),
    /// with the default name and the palette color of that id, and
    /// broadcasts the group and the roster to all.  Fails only when the
    /// group table cannot grow further.
    #[verifier::rlimit(50)]
    pub fn cmd_create_group(&mut self) -> (r: Result<u32, RoomError>)
        requires
            room_wf(old(self)@),
        ensures
            room_wf(final(self)@),
            match r {
                Ok(id) => {
                    &&& 1 <= id
                    &&& !group_exists(old(self)@.groups, id)
                    &&& (forall|g: u32| 1 <= g < id ==> group_exists(old(self)@.groups, g))
                    &&& final(self)@ == create_group_step(old(self)@, id)
                },
                Err(e) => {
                    &&& e == RoomError::RoomFull
                    &&& old(self)@.groups.len() >= 0xFFFF_FFFF
                    &&& final(self)@ == old(self)@
                },
            },
    {
        let n = self.groups.len();
        if n >= 0xFFFF_FFFFusize {
            return Err(RoomError::RoomFull);
        }
        let mut c: usize = 1;
        while c < n && self.groups[c].id == c as u32
            invariant
                1 <= c <= n,
                *self == *old(self),
                n == self.groups@.len(),
                n < 0xFFFF_FFFF,
                room_wf(self@),
                forall|j: int| 0 <= j < c ==> (#[trigger] self@.groups[j]).id == j,
            decreases n - c,
        {
            c += 1;
        }
        let id: u32 = c as u32;
        proof {
            assert forall|g: u32| 1 <= g < id implies group_exists(old(self)@.groups, g) by {
                assert(old(self)@.groups[g as int].id == g);
            }
            assert forall|i: int| 0 <= i < n implies (#[trigger] old(self)@.groups[i]).id
                != id by {
                if i < c as int {
                    assert(old(self)@.groups[i].id == i);
                } else {
                    assert(old(self)@.groups[c - 1 as int].id == c - 1);
                    assert(old(self)@.groups[c - 1 as int].id < old(self)@.groups[i].id);
                    if i > c as int {
                        assert(old(self)@.groups[c as int].id < old(self)@.groups[i].id);
                    }
                }
            }
            assert(!group_exists(old(self)@.groups, id));
        }
        let mut gname: Vec<u8> = Vec::new();
        crate::bytes::push_str_bytes(&mut gname, "Grupo");
        let gcolor = palette_color(id);
        self.groups.insert(c, Group { id, name: gname, color: gcolor });
        let e = crate::command::ServerCommand::GroupUpdated {
            group: id,
            name: copy_bytes(&self.groups[c].name),
            color: copy_bytes(&self.groups[c].color),
        };
        let msg = crate::codec::encode_event(&e);
        self.send_all(&msg);
        let roster = self.get_group_members();
        proof {
            lemma_roster_same(self@.members, old(self)@.members);
        }
        let e2 = crate::command::ServerCommand::MembersChanged { members: roster };
        let msg2 = crate::codec::encode_event(&e2);
        self.send_all(&msg2);
        proof {
            assert(self@ =~~= create_group_step(old(self)@, id));
            assert forall|i: int, j: int|
                0 <= i < j < self@.groups.len() implies (#[trigger] self@.groups[i]).id < (
            #[trigger] self@.groups[j]).id by {
                if j == c as int {
                    assert(self@.groups[i].id == i);
                } else if i == c as int {
                    assert(self@.groups[j] == old(self)@.groups[j - 1]);
                    if c < n {
                        assert(old(self)@.groups[c - 1 as int].id == c - 1);
                    }
                }
            }
            assert forall|i: int|
                0 <= i < self@.members.len() implies group_exists(
                self@.groups,
                (#[trigger] self@.members[i]).group,
            ) by {
                assert(group_exists(old(self)@.groups, old(self)@.members[i].group));
                let j = choose|j: int|
                    0 <= j < old(self)@.groups.len() && old(self)@.groups[j].id == old(
                        self,
                    )@.members[i].group;
                if j < c as int {
                    assert(self@.groups[j].id == self@.members[i].group);
                } else {
                    assert(self@.groups[j + 1].id == self@.members[i].group);
                }
            }
            assert(room_wf(self@));
        }
        Ok(id)
    }

    /// Removes a group.  The default group (id zero) and unknown ids are
    /// refused and nothing changes; otherwise the group goes, every member
    /// of it moves to the default group, and the removal and the new
    /// roster are broadcast to all.
    #[verifier::rlimit(50)]
    pub fn cmd_remove_group(&mut self, group: u32) -> (r: Result<(), RoomError>)
        requires
            room_wf(old(self)@),
        ensures
            room_wf(final(self)@),
            match r {
                Ok(()) => group != 0 && group_exists(old(self)@.groups, group) && final(self)@
                    == remove_group_step(old(self)@, group_idx(old(self)@.groups, group)),
                Err(e) => {
                    &&& e == RoomError::GroupNotFound
                    &&& (group == 0 || !group_exists(old(self)@.groups, group))
                    &&& final(self)@ == old(self)@
                },
            },
    {
        if group == 0 {
            return Err(RoomError::GroupNotFound);
        }
        let gi = match self.find_group(group) {
            Some(gi) => gi,
            None => {
                return Err(RoomError::GroupNotFound);
            },
        };
        let ghost gidx = group_idx(old(self)@.groups, group);
        proof {
            assert(old(self)@.groups[gi as int].id == group);
            assert(0 <= gidx < old(self)@.groups.len() && old(self)@.groups[gidx].id == group);
            assert(gidx == gi as int);
            assert(gi != 0);
        }
        self.groups.remove(gi);
        let mut i: usize = 0;
        while i < self.members.len()
            invariant
                i <= self.members@.len(),
                self.members@.len() == old(self).members@.len(),
                self.last_interaction == old(self).last_interaction,
                self.game == old(self).game,
                self.event_time == old(self).event_time,
                self.question_pool == old(self).question_pool,
                self.groups@ == old(self).groups@.remove(gi as int),
                self.conns == old(self).conns,
                forall|j: int|
                    0 <= j < i ==> #[trigger] self.members@[j]@ == (if old(
                        self,
                    ).members@[j]@.group == group {
                        MemberSt { group: 0, ..old(self).members@[j]@ }
                    } else {
                        old(self).members@[j]@
                    }),
                forall|j: int|
                    i <= j < self.members@.len() ==> #[trigger] self.members@[j] == old(
                        self,
                    ).members@[j],
            decreases self.members@.len() - i,
        {
            if self.members[i].group == group {
                self.members[i].group = 0;
            }
            i += 1;
        }
        let ghost ms = regrouped_members(old(self)@.members, group);
        proof {
            assert(self@.members =~~= ms);
        }
        let e = crate::command::ServerCommand::GroupRemoved { group };
        let msg = crate::codec::encode_event(&e);
        self.send_all(&msg);
        let roster = self.get_group_members();
        proof {
            lemma_roster_same(self@.members, ms);
        }
        let e2 = crate::command::ServerCommand::MembersChanged { members: roster };
        let msg2 = crate::codec::encode_event(&e2);
        self.send_all(&msg2);
        proof {
            assert(self@ =~~= remove_group_step(old(self)@, gi as int));
            assert(self@.groups[0] == old(self)@.groups[0]);
            assert forall|i2: int|
                0 <= i2 < self@.members.len() implies group_exists(
                self@.groups,
                (#[trigger] self@.members[i2]).group,
            ) by {
                if self@.members[i2].group == 0 {
                    assert(self@.groups[0].id == 0);
                } else {
                    assert(group_exists(old(self)@.groups, old(self)@.members[i2].group));
                    let j = choose|j: int|
                        0 <= j < old(self)@.groups.len() && old(self)@.groups[j].id == old(
                            self,
                        )@.members[i2].group;
                    assert(j != gi as int);
                    if j < gi as int {
                        assert(self@.groups[j].id == self@.members[i2].group);
                    } else {
                        assert(self@.groups[j - 1].id == self@.members[i2].group);
                    }
                }
            }
            assert(room_wf(self@));
        }
        Ok(())
    }
}


/// A member right after being kicked: presence, profile and answers
/// cleared, the slot terminally marked, the room-closed notice last in
/// its history.
pub open spec fn kicked_member(m: MemberSt, rc: Seq<u8>) -> MemberSt {
    MemberSt {
        sckid: m.sckid,
        online: 0,
        name: Seq::empty(),
        group: 0,
        sent: m.sent.push(rc),
        answers: Seq::empty(),
        kicked: true,
    }
}

/// A room after a valid kick: the slot alone gets the room-closed notice
/// and is wiped and terminally marked, then the removal and the new
/// roster are broadcast to all.
pub open spec fn kick_step(pre: RoomV, idx: int) -> RoomV {
    let rc = enc_event(EventV::RoomClosed);
    let ms = pre.members.update(idx, kicked_member(pre.members[idx], rc));
    let r1 = RoomV { members: ms, ..pre };
    let r2 = sent_all(r1, enc_event(EventV::MemberRemoved { sckid: pre.members[idx].sckid }));
    sent_all(r2, enc_event(EventV::MembersChanged { members: roster_of(ms) }))
}

/// A room after a member set its name: a change stores the name and
/// broadcasts the member and the roster to all; an unchanged name does
/// nothing.
pub open spec fn set_name_step(pre: RoomV, idx: int, name: Seq<u8>) -> RoomV {
    if pre.members[idx].name == name {
        pre
    } else {
        let m1 = MemberSt { name, ..pre.members[idx] };
        let ms = pre.members.update(idx, m1);
        let r1 = RoomV { members: ms, ..pre };
        let r2 = sent_all(r1, enc_event(EventV::MemberUpdated { member: m1.wire() }));
        sent_all(r2, enc_event(EventV::MembersChanged { members: roster_of(ms) }))
    }
}

/// A room after a member moved to an existing group: a change stores the
/// group and broadcasts the member and the roster to all; the same group
/// does nothing.
pub open spec fn set_group_step(pre: RoomV, idx: int, group: u32) -> RoomV {
    if pre.members[idx].group == group {
        pre
    } else {
        let m1 = MemberSt { group, ..pre.members[idx] };
        let ms = pre.members.update(idx, m1);
        let r1 = RoomV { members: ms, ..pre };
        let r2 = sent_all(r1, enc_event(EventV::MemberUpdated { member: m1.wire() }));
        sent_all(r2, enc_event(EventV::MembersChanged { members: roster_of(ms) }))
    }
}

/// Some answer of this member concerns question `q`.
pub open spec fn has_question(s: Seq<Answer>, q: u32) -> bool {
    exists|i: int| 0 <= i < s.len() && s[i].question == q
}

/// The position of the answer to question `q`, where one exists.
pub open spec fn question_at(s: Seq<Answer>, q: u32) -> int {
    choose|i: int| 0 <= i < s.len() && s[i].question == q
}

/// Where a fresh answer to question `q` belongs: just past the answers
/// to smaller questions.
pub open spec fn insert_pos(s: Seq<Answer>, q: u32) -> int
    decreases s.len(),
{
    if s.len() == 0 {
        0
    } else if s[0].question < q {
        1 + insert_pos(s.drop_first(), q)
    } else {
        0
    }
}

proof fn lemma_insert_pos_bounds(s: Seq<Answer>, q: u32)
    ensures
        0 <= insert_pos(s, q) <= s.len(),
    decreases s.len(),
{
    if s.len() > 0 && s[0].question < q {
        lemma_insert_pos_bounds(s.drop_first(), q);
    }
}

/// The place the forward scan stops at is the insertion position.
proof fn lemma_insert_pos_is(s: Seq<Answer>, q: u32, p: int)
    requires
        0 <= p <= s.len(),
        forall|j: int| 0 <= j < p ==> s[j].question < q,
        p < s.len() ==> s[p].question >= q,
    ensures
        insert_pos(s, q) == p,
    decreases p,
{
    if p == 0 {
    } else {
        assert(s[0].question < q);
        lemma_insert_pos_is(s.drop_first(), q, p - 1);
    }
}

/// One member's answers after recording `(q, a)`: the latest answer to a
/// question wins, a question is never listed twice, and a fresh question
/// takes its place in ascending order.
pub open spec fn upsert(s: Seq<Answer>, q: u32, a: u32) -> Seq<Answer> {
    if has_question(s, q) {
        s.update(question_at(s, q), Answer { question: q, answer: a })
    } else {
        s.insert(insert_pos(s, q), Answer { question: q, answer: a })
    }
}

/// Inserting a fresh question anywhere adds exactly its map entry.
proof fn lemma_map_of_insert(s: Seq<Answer>, k: int, x: Answer)
    requires
        0 <= k <= s.len(),
        keys_unique(s),
        !has_question(s, x.question),
    ensures
        map_of(s.insert(k, x)) == map_of(s).insert(x.question, x.answer),
        keys_unique(s.insert(k, x)),
    decreases s.len(),
{
    let t = s.insert(k, x);
    assert forall|i2: int, j2: int|
        0 <= i2 < j2 < t.len() implies t[i2].question != t[j2].question by {
        if i2 == k {
            assert(t[j2] == s[j2 - 1]);
        } else if j2 == k {
            assert(t[i2] == s[i2]);
        } else {
            let i0: int = if i2 < k {
                i2
            } else {
                i2 - 1
            };
            let j0: int = if j2 < k {
                j2
            } else {
                j2 - 1
            };
            assert(t[i2] == s[i0] && t[j2] == s[j0]);
            assert(s[i0].question != s[j0].question);
        }
    }
    if k == s.len() {
        assert(t =~= s.push(x));
        assert(t.drop_last() =~= s);
        assert(t.last() == x);
        assert(map_of(t) =~= map_of(s).insert(x.question, x.answer));
    } else {
        let d = s.drop_last();
        assert(keys_unique(d));
        assert(!has_question(d, x.question));
        lemma_map_of_insert(d, k, x);
        assert(t.drop_last() =~= d.insert(k, x));
        assert(t.last() == s.last());
        assert(map_of(t) == map_of(d.insert(k, x)).insert(s.last().question, s.last().answer));
        assert(s.last().question != x.question);
        assert(map_of(d).insert(x.question, x.answer).insert(s.last().question, s.last().answer)
            =~= map_of(d).insert(s.last().question, s.last().answer).insert(x.question, x.answer));
        assert(map_of(t) =~= map_of(s).insert(x.question, x.answer));
    }
}

/// An upsert keeps the ascending question order.
pub proof fn lemma_upsert_sorted(s: Seq<Answer>, q: u32, a: u32)
    requires
        questions_sorted(s),
    ensures
        questions_sorted(upsert(s, q, a)),
{
    lemma_sorted_unique(s);
    let x = Answer { question: q, answer: a };
    if has_question(s, q) {
        let i = question_at(s, q);
        let t = s.update(i, x);
        assert forall|i2: int, j2: int|
            0 <= i2 < j2 < t.len() implies t[i2].question < t[j2].question by {
            assert(s[i2].question < s[j2].question);
        }
    } else {
        let p = insert_pos(s, q);
        lemma_insert_pos_props(s, q);
        let t = s.insert(p, x);
        assert forall|i2: int, j2: int|
            0 <= i2 < j2 < t.len() implies t[i2].question < t[j2].question by {
            if i2 == p {
                assert(t[j2] == s[j2 - 1]);
            } else if j2 == p {
                assert(t[i2] == s[i2]);
            } else {
                let i0: int = if i2 < p {
                    i2
                } else {
                    i2 - 1
                };
                let j0: int = if j2 < p {
                    j2
                } else {
                    j2 - 1
                };
                assert(t[i2] == s[i0] && t[j2] == s[j0]);
                assert(s[i0].question < s[j0].question);
            }
        }
    }
}

/// Everything before the insertion position asks a smaller question,
/// everything at or after it a larger one.
proof fn lemma_insert_pos_props(s: Seq<Answer>, q: u32)
    requires
        questions_sorted(s),
        !has_question(s, q),
    ensures
        0 <= insert_pos(s, q) <= s.len(),
        forall|j: int| 0 <= j < insert_pos(s, q) ==> s[j].question < q,
        forall|j: int| insert_pos(s, q) <= j < s.len() ==> s[j].question > q,
    decreases s.len(),
{
    lemma_insert_pos_bounds(s, q);
    if s.len() > 0 && s[0].question < q {
        assert(questions_sorted(s.drop_first()));
        assert(!has_question(s.drop_first(), q)) by {
            if has_question(s.drop_first(), q) {
                let w = choose|w: int|
                    0 <= w < s.drop_first().len() && s.drop_first()[w].question == q;
                assert(s[w + 1].question == q);
            }
        }
        lemma_insert_pos_props(s.drop_first(), q);
        assert forall|j: int| 0 <= j < insert_pos(s, q) implies s[j].question < q by {
            if j > 0 {
                assert(s.drop_first()[j - 1].question < q);
            }
        }
        assert forall|j: int| insert_pos(s, q) <= j < s.len() implies s[j].question > q by {
            assert(s.drop_first()[j - 1].question > q);
        }
    } else if s.len() > 0 {
        assert(s[0].question != q);
        assert forall|j: int| 0 <= j < s.len() implies s[j].question > q by {
            if j > 0 {
                assert(s[0].question < s[j].question);
            }
        }
    }
}

/// Recording an answer updates the member's answer map at exactly that
/// question, and keeps questions unique.
pub proof fn lemma_upsert_map(s: Seq<Answer>, q: u32, a: u32)
    requires
        keys_unique(s),
    ensures
        map_of(upsert(s, q, a)) == map_of(s).insert(q, a),
        keys_unique(upsert(s, q, a)),
        has_question(upsert(s, q, a), q),
    decreases s.len(),
{
    let x = Answer { question: q, answer: a };
    if !has_question(s, q) {
        lemma_insert_pos_bounds(s, q);
        lemma_map_of_insert(s, insert_pos(s, q), x);
        assert(s.insert(insert_pos(s, q), x)[insert_pos(s, q)] == x);
    } else {
        let i = question_at(s, q);
        assert(0 <= i < s.len() && s[i].question == q);
        let t = s.update(i, x);
        assert(upsert(s, q, a) == t);
        if i == s.len() - 1 {
            assert(t.drop_last() =~= s.drop_last());
            assert(t.last() == x);
            assert(map_of(t) == map_of(s.drop_last()).insert(q, a));
            assert(map_of(s) == map_of(s.drop_last()).insert(q, s.last().answer));
            assert(map_of(s).insert(q, a) =~= map_of(s.drop_last()).insert(q, a));
        } else {
            let d = s.drop_last();
            assert(keys_unique(d));
            assert(d[i].question == q);
            assert(has_question(d, q));
            let j = question_at(d, q);
            assert(0 <= j < d.len() && d[j].question == q);
            assert(j == i);
            lemma_upsert_map(d, q, a);
            assert(t.drop_last() =~= d.update(i, x));
            assert(t.last() == s.last());
            assert(map_of(t) == map_of(d.update(i, x)).insert(
                s.last().question,
                s.last().answer,
            ));
            assert(map_of(t) == map_of(d).insert(q, a).insert(s.last().question, s.last().answer));
            assert(s.last().question != q);
            assert(map_of(d).insert(q, a).insert(s.last().question, s.last().answer)
                =~= map_of(d).insert(s.last().question, s.last().answer).insert(q, a));
            assert(map_of(t) =~= map_of(s).insert(q, a));
        }
        assert forall|i2: int, j2: int|
            0 <= i2 < j2 < t.len() implies t[i2].question != t[j2].question by {
            assert(s[i2].question != s[j2].question);
        }
    }
}

/// Records one answer in a sorted answer row: an existing question is
/// overwritten in place, a fresh one takes its ascending position.
fn upsert_answer(answers: &mut Vec<Answer>, question: u32, answer: u32)
    requires
        questions_sorted(old(answers)@),
    ensures
        final(answers)@ == upsert(old(answers)@, question, answer),
{
    let x = Answer { question, answer };
    let alen = answers.len();
    let mut p: usize = 0;
    while p < alen && answers[p].question < question
        invariant
            p <= alen,
            answers@ == old(answers)@,
            alen == answers@.len(),
            forall|j: int| 0 <= j < p ==> (#[trigger] answers@[j]).question < question,
        decreases alen - p,
    {
        p += 1;
    }
    let ghost s0 = old(answers)@;
    proof {
        lemma_sorted_unique(s0);
    }
    if p < alen && answers[p].question == question {
        proof {
            assert(has_question(s0, question));
            let w = question_at(s0, question);
            assert(0 <= w < s0.len() && s0[w].question == question);
            assert(w == p as int) by {
                if w != p as int {
                    assert(s0[w].question != s0[p as int].question);
                }
            }
        }
        answers.set(p, x);
    } else {
        proof {
            assert forall|j: int|
                p <= j < s0.len() implies (#[trigger] s0[j]).question > question by {
                if j > p as int {
                    assert(s0[p as int].question < s0[j].question);
                }
            }
            assert(!has_question(s0, question)) by {
                if has_question(s0, question) {
                    let w = question_at(s0, question);
                    assert(0 <= w < s0.len() && s0[w].question == question);
                }
            }
            lemma_insert_pos_is(s0, question, p as int);
        }
        answers.insert(p, x);
    }
}

/// A room after a member recorded an answer: the upsert, then three
/// events for the moderator alone — the member, the new answer, and the
/// recomputed aggregate.
pub open spec fn answer_step(pre: RoomV, idx: int, q: u32, a: u32) -> RoomV {
    let m1 = MemberSt { answers: upsert(pre.members[idx].answers, q, a), ..pre.members[idx] };
    let ms = pre.members.update(idx, m1);
    let r1 = RoomV { members: ms, ..pre };
    let r2 = sent_master(r1, enc_event(EventV::MemberUpdated { member: m1.wire() }));
    let r3 = sent_master(
        r2,
        enc_event(
            EventV::AnswerUpdated { answer: Answer { question: q, answer: a }, member: m1.wire() },
        ),
    );
    sent_master(r3, enc_event(EventV::AnswersChanged { answers: aggregate_of(ms) }))
}

impl Room {
    /// Kicks a member slot: the slot alone is told the room closed, its
    /// profile, answers and connections are wiped, and the mark is
    /// terminal.  The removal and the new roster go to all.  Slot zero
    /// and slots beyond the member list are refused.
    #[verifier::rlimit(50)]
    pub fn cmd_kick(&mut self, sckid: u32) -> (r: Result<(), RoomError>)
        requires
            room_wf(old(self)@),
        ensures
            room_wf(final(self)@),
            match r {
                Ok(()) => {
                    &&& sckid >= 1
                    &&& sckid - 1 < old(self)@.members.len()
                    &&& final(self)@ == kick_step(old(self)@, sckid - 1)
                    &&& final(self).members@[sckid - 1].conns.count() == 0
                },
                Err(e) => {
                    &&& e == RoomError::SlotOutOfRange
                    &&& (sckid == 0 || sckid - 1 >= old(self)@.members.len())
                    &&& final(self)@ == old(self)@
                },
            },
    {
        if sckid == 0 {
            return Err(RoomError::SlotOutOfRange);
        }
        let idx = (sckid - 1) as usize;
        if idx >= self.members.len() {
            return Err(RoomError::SlotOutOfRange);
        }
        let rc_e = crate::command::ServerCommand::RoomClosed;
        let rc = crate::codec::encode_event(&rc_e);
        self.members[idx].conns.send(&rc);
        self.members[idx].online = 0;
        self.members[idx].answers = Vec::new();
        self.members[idx].name = Vec::new();
        self.members[idx].group = 0;
        self.members[idx].conns.close();
        self.members[idx].kicked = true;
        let ghost ms = old(self)@.members.update(
            idx as int,
            kicked_member(old(self)@.members[idx as int], enc_event(EventV::RoomClosed)),
        );
        proof {
            assert(self@.members =~~= ms);
        }
        let e = crate::command::ServerCommand::MemberRemoved { sckid };
        let msg = crate::codec::encode_event(&e);
        self.send_all(&msg);
        let roster = self.get_group_members();
        proof {
            lemma_roster_same(self@.members, ms);
        }
        let e2 = crate::command::ServerCommand::MembersChanged { members: roster };
        let msg2 = crate::codec::encode_event(&e2);
        self.send_all(&msg2);
        proof {
            assert(self@ =~~= kick_step(old(self)@, idx as int));
            assert forall|i2: int|
                0 <= i2 < self@.members.len() implies group_exists(
                self@.groups,
                (#[trigger] self@.members[i2]).group,
            ) by {
                if i2 == idx as int {
                    assert(self@.groups[0].id == 0);
                } else {
                    assert(group_exists(old(self)@.groups, old(self)@.members[i2].group));
                }
            }
            assert(room_wf(self@));
        }
        Ok(())
    }

    /// Renames a member slot on that member's request; a change is
    /// broadcast to all as the member and the new roster.  Slot zero,
    /// slots beyond the list, and kicked slots are refused.
    #[verifier::rlimit(50)]
    pub fn member_set_name(&mut self, sckid: u32, name: Vec<u8>) -> (r: Result<(), RoomError>)
        requires
            room_wf(old(self)@),
        ensures
            room_wf(final(self)@),
            match r {
                Ok(()) => {
                    &&& sckid >= 1
                    &&& sckid - 1 < old(self)@.members.len()
                    &&& !old(self)@.members[sckid - 1].kicked
                    &&& final(self)@ == set_name_step(old(self)@, sckid - 1, name@)
                },
                Err(RoomError::SlotOutOfRange) => (sckid == 0 || sckid - 1 >= old(
                    self,
                )@.members.len()) && final(self)@ == old(self)@,
                Err(RoomError::SlotKicked) => {
                    &&& sckid >= 1
                    &&& sckid - 1 < old(self)@.members.len()
                    &&& old(self)@.members[sckid - 1].kicked
                    &&& final(self)@ == old(self)@
                },
                Err(_) => false,
            },
    {
        if sckid == 0 {
            return Err(RoomError::SlotOutOfRange);
        }
        let idx = (sckid - 1) as usize;
        if idx >= self.members.len() {
            return Err(RoomError::SlotOutOfRange);
        }
        if self.members[idx].kicked {
            return Err(RoomError::SlotKicked);
        }
        if crate::bytes::bytes_eq(self.members[idx].name.as_slice(), name.as_slice()) {
            return Ok(());
        }
        self.members[idx].name = name;
        let ghost ms = old(self)@.members.update(
            idx as int,
            MemberSt { name: name@, ..old(self)@.members[idx as int] },
        );
        proof {
            assert(self@.members =~~= ms);
        }
        let e = crate::command::ServerCommand::MemberUpdated {
            member: wire_member(&self.members[idx]),
        };
        let msg = crate::codec::encode_event(&e);
        self.send_all(&msg);
        let roster = self.get_group_members();
        proof {
            lemma_roster_same(self@.members, ms);
        }
        let e2 = crate::command::ServerCommand::MembersChanged { members: roster };
        let msg2 = crate::codec::encode_event(&e2);
        self.send_all(&msg2);
        proof {
            assert(self@ =~~= set_name_step(old(self)@, idx as int, name@));
            lemma_wf_like(old(self)@, self@);
        }
        Ok(())
    }

    /// Moves a member to an existing group on that member's request; a
    /// change is broadcast to all as the member and the new roster.  Slot
    /// zero, slots beyond the list, kicked slots and unknown groups are
    /// refused.
    #[verifier::rlimit(50)]
    pub fn member_set_group(&mut self, sckid: u32, group: u32) -> (r: Result<(), RoomError>)
        requires
            room_wf(old(self)@),
        ensures
            room_wf(final(self)@),
            match r {
                Ok(()) => {
                    &&& sckid >= 1
                    &&& sckid - 1 < old(self)@.members.len()
                    &&& !old(self)@.members[sckid - 1].kicked
                    &&& group_exists(old(self)@.groups, group)
                    &&& final(self)@ == set_group_step(old(self)@, sckid - 1, group)
                },
                Err(RoomError::SlotOutOfRange) => (sckid == 0 || sckid - 1 >= old(
                    self,
                )@.members.len()) && final(self)@ == old(self)@,
                Err(RoomError::SlotKicked) => {
                    &&& sckid >= 1
                    &&& sckid - 1 < old(self)@.members.len()
                    &&& old(self)@.members[sckid - 1].kicked
                    &&& final(self)@ == old(self)@
                },
                Err(RoomError::GroupNotFound) => {
                    &&& sckid >= 1
                    &&& sckid - 1 < old(self)@.members.len()
                    &&& !old(self)@.members[sckid - 1].kicked
                    &&& !group_exists(old(self)@.groups, group)
                    &&& final(self)@ == old(self)@
                },
                Err(_) => false,
            },
    {
        if sckid == 0 {
            return Err(RoomError::SlotOutOfRange);
        }
        let idx = (sckid - 1) as usize;
        if idx >= self.members.len() {
            return Err(RoomError::SlotOutOfRange);
        }
        if self.members[idx].kicked {
            return Err(RoomError::SlotKicked);
        }
        if self.find_group(group).is_none() {
            return Err(RoomError::GroupNotFound);
        }
        if self.members[idx].group == group {
            return Ok(());
        }
        self.members[idx].group = group;
        let ghost ms = old(self)@.members.update(
            idx as int,
            MemberSt { group, ..old(self)@.members[idx as int] },
        );
        proof {
            assert(self@.members =~~= ms);
        }
        let e = crate::command::ServerCommand::MemberUpdated {
            member: wire_member(&self.members[idx]),
        };
        let msg = crate::codec::encode_event(&e);
        self.send_all(&msg);
        let roster = self.get_group_members();
        proof {
            lemma_roster_same(self@.members, ms);
        }
        let e2 = crate::command::ServerCommand::MembersChanged { members: roster };
        let msg2 = crate::codec::encode_event(&e2);
        self.send_all(&msg2);
        proof {
            assert(self@ =~~= set_group_step(old(self)@, idx as int, group));
            assert forall|i2: int|
                0 <= i2 < self@.members.len() implies group_exists(
                self@.groups,
                (#[trigger] self@.members[i2]).group,
            ) by {
                if i2 != idx as int {
                    assert(group_exists(old(self)@.groups, old(self)@.members[i2].group));
                }
            }
            assert(room_wf(self@));
        }
        Ok(())
    }

    /// Records one member's answer to one question, overwriting any
    /// earlier answer to it, and tells the moderator alone: the member,
    /// the new answer, and the recomputed aggregate.  Slot zero, slots
    /// beyond the list and kicked slots are refused.
    #[verifier::rlimit(50)]
    pub fn member_answer(&mut self, sckid: u32, question: u32, answer: u32) -> (r: Result<
        (),
        RoomError,
    >)
        requires
            room_wf(old(self)@),
        ensures
            room_wf(final(self)@),
            match r {
                Ok(()) => {
                    &&& sckid >= 1
                    &&& sckid - 1 < old(self)@.members.len()
                    &&& !old(self)@.members[sckid - 1].kicked
                    &&& final(self)@ == answer_step(old(self)@, sckid - 1, question, answer)
                    &&& map_of(final(self)@.members[sckid - 1].answers) == map_of(
                        old(self)@.members[sckid - 1].answers,
                    ).insert(question, answer)
                },
                Err(RoomError::SlotOutOfRange) => (sckid == 0 || sckid - 1 >= old(
                    self,
                )@.members.len()) && final(self)@ == old(self)@,
                Err(RoomError::SlotKicked) => {
                    &&& sckid >= 1
                    &&& sckid - 1 < old(self)@.members.len()
                    &&& old(self)@.members[sckid - 1].kicked
                    &&& final(self)@ == old(self)@
                },
                Err(_) => false,
            },
    {
        if sckid == 0 {
            return Err(RoomError::SlotOutOfRange);
        }
        let idx = (sckid - 1) as usize;
        if idx >= self.members.len() {
            return Err(RoomError::SlotOutOfRange);
        }
        if self.members[idx].kicked {
            return Err(RoomError::SlotKicked);
        }
        let x = Answer { question, answer };
        upsert_answer(&mut self.members[idx].answers, question, answer);
        let ghost s0 = old(self)@.members[idx as int].answers;
        proof {
            lemma_upsert_map(s0, question, answer);
            lemma_upsert_sorted(s0, question, answer);
        }
        let ghost m1 = MemberSt { answers: upsert(s0, question, answer), ..old(
            self,
        )@.members[idx as int] };
        let ghost ms = old(self)@.members.update(idx as int, m1);
        proof {
            assert(self@.members =~~= ms);
        }
        let e = crate::command::ServerCommand::MemberUpdated {
            member: wire_member(&self.members[idx]),
        };
        let msg = crate::codec::encode_event(&e);
        self.send_master(&msg);
        let e2 = crate::command::ServerCommand::AnswerUpdated {
            answer: x,
            member: wire_member(&self.members[idx]),
        };
        let msg2 = crate::codec::encode_event(&e2);
        self.send_master(&msg2);
        let agg = self.get_answers();
        let e3 = crate::command::ServerCommand::AnswersChanged { answers: agg };
        let msg3 = crate::codec::encode_event(&e3);
        self.send_master(&msg3);
        proof {
            assert(ms[idx as int] == m1);
            assert(msg@ == enc_event(EventV::MemberUpdated { member: m1.wire() }));
            assert(msg2@ == enc_event(
                EventV::AnswerUpdated {
                    answer: Answer { question, answer },
                    member: m1.wire(),
                },
            ));
            assert(msg3@ == enc_event(EventV::AnswersChanged { answers: aggregate_of(ms) }));
            assert(self@.sent =~= old(self)@.sent.push(msg@).push(msg2@).push(msg3@));
            assert(self@ =~~= answer_step(old(self)@, idx as int, question, answer));
            assert forall|i2: int|
                0 <= i2 < self@.members.len() implies questions_sorted(
                (#[trigger] self@.members[i2]).answers,
            ) by {
                if i2 != idx as int {
                    assert(questions_sorted(old(self)@.members[i2].answers));
                }
            }
            assert forall|i2: int|
                0 <= i2 < self@.members.len() implies group_exists(
                self@.groups,
                (#[trigger] self@.members[i2]).group,
            ) by {
                assert(group_exists(old(self)@.groups, old(self)@.members[i2].group));
            }
            assert(room_wf(self@));
        }
        Ok(())
    }
}


/// A start keeps the room well-formed: it only clears answers and
/// extends histories.
pub proof fn lemma_start_wf(pre: RoomV, now: u64)
    requires
        room_wf(pre),
    ensures
        room_wf(start_step(pre, now)),
{
    let post = start_step(pre, now);
    if !(pre.game is Started) {
        assert(post.groups == pre.groups);
        assert(post.members.len() == pre.members.len());
        assert forall|m: int|
            0 <= m < post.members.len() implies (#[trigger] post.members[m]).sckid == m + 1
                && questions_sorted(post.members[m].answers) && group_exists(
                post.groups,
                post.members[m].group,
            ) by {
            assert(post.members[m].group == pre.members[m].group);
            assert(post.members[m].sckid == pre.members[m].sckid);
            assert(post.members[m].answers =~= Seq::<Answer>::empty());
            assert(group_exists(pre.groups, pre.members[m].group));
        }
    }
}

/// Slots start at one and rise strictly with list position, so the slots
/// handed out by successive joins are strictly increasing and are never
/// reused.
pub proof fn lemma_slots_strictly_increasing(r: RoomV)
    requires
        room_wf(r),
    ensures
        forall|i: int, j: int|
            0 <= i < j < r.members.len() ==> r.members[i].sckid < r.members[j].sckid,
        r.members.len() > 0 ==> r.members[0].sckid == 1,
{
}

/// The latest answer to a question wins outright: recording an answer to
/// a question and then another answer to the same question leaves the
/// member's answers exactly as if only the second had been recorded —
/// one entry for the question, holding the latest answer.
pub proof fn lemma_answer_upsert_latest_wins(s: Seq<Answer>, q: u32, a1: u32, a2: u32)
    requires
        keys_unique(s),
    ensures
        upsert(upsert(s, q, a1), q, a2) == upsert(s, q, a2),
        map_of(upsert(upsert(s, q, a1), q, a2)) == map_of(s).insert(q, a2),
{
    lemma_upsert_map(s, q, a1);
    lemma_upsert_map(s, q, a2);
    let t = upsert(s, q, a1);
    lemma_upsert_map(t, q, a2);
    let x1 = Answer { question: q, answer: a1 };
    let x2 = Answer { question: q, answer: a2 };
    if has_question(s, q) {
        let i = question_at(s, q);
        assert(0 <= i < s.len() && s[i].question == q);
        assert(t == s.update(i, x1));
        let i2 = question_at(t, q);
        assert(0 <= i2 < t.len() && t[i2].question == q);
        assert forall|k: int| 0 <= k < t.len() && t[k].question == q implies k == i by {
            if k != i {
                assert(t[k] == s[k]);
                assert(s[k].question != s[i].question);
            }
        }
        assert(i2 == i);
        assert(upsert(t, q, a2) =~= s.update(i, x2));
        assert(upsert(s, q, a2) == s.update(i, x2));
    } else {
        let p = insert_pos(s, q);
        lemma_insert_pos_bounds(s, q);
        assert(t == s.insert(p, x1));
        assert(t[p] == x1);
        let i2 = question_at(t, q);
        assert(0 <= i2 < t.len() && t[i2].question == q);
        assert(i2 == p) by {
            if i2 != p {
                assert(t[i2].question != t[p].question);
            }
        }
        assert(upsert(t, q, a2) =~= s.insert(p, x2));
        assert(upsert(s, q, a2) == s.insert(p, x2));
    }
}

/// Removing a group moves exactly its members to the default group and
/// leaves every other member's group alone; the default group itself
/// keeps its place and its id, so it can never be removed.
pub proof fn lemma_remove_group_reassigns(pre: RoomV, gi: int)
    requires
        room_wf(pre),
        1 <= gi < pre.groups.len(),
    ensures
        forall|m: int|
            0 <= m < pre.members.len() ==> #[trigger] remove_group_step(pre, gi).members[m].group
                == (if pre.members[m].group == pre.groups[gi].id {
                0u32
            } else {
                pre.members[m].group
            }),
        remove_group_step(pre, gi).groups[0] == pre.groups[0],
        remove_group_step(pre, gi).groups[0].id == 0,
{
    let post = remove_group_step(pre, gi);
    assert(post.groups[0] == pre.groups.remove(gi)[0]);
}

/// A kicked slot stays kicked under every room step: no command, no
/// bookkeeping, and no sweep ever clears the mark.  Together with the
/// connect and dispatch contracts, which refuse kicked slots outright,
/// a kicked slot can never again connect or command.
pub proof fn lemma_kick_terminal(
    pre: RoomV,
    now: u64,
    seconds: u32,
    questions: Seq<u8>,
    idx: int,
    q: u32,
    a: u32,
    name: Seq<u8>,
    g: u32,
    tgt: int,
    gi: int,
    m: int,
)
    requires
        0 <= m < pre.members.len(),
        pre.members[m].kicked,
        0 <= idx < pre.members.len(),
        0 <= tgt < pre.members.len(),
        0 <= gi < pre.groups.len(),
    ensures
        start_step(pre, now).members[m].kicked,
        finish_step(pre).members[m].kicked,
        extra_step(pre, seconds).members[m].kicked,
        set_time_step(pre, seconds).members[m].kicked,
        set_questions_step(pre, questions).members[m].kicked,
        set_name_step(pre, idx, name).members[m].kicked,
        set_group_step(pre, idx, g).members[m].kicked,
        answer_step(pre, idx, q, a).members[m].kicked,
        kick_step(pre, tgt).members[m].kicked,
        set_group_name_step(pre, gi, name).members[m].kicked,
        set_group_color_step(pre, gi, name).members[m].kicked,
        remove_group_step(pre, gi).members[m].kicked,
        create_group_step(pre, g).members[m].kicked,
{
}

} // verus!
