//! The room registry: the single-writer surface of the engine.
//!
//! Every public function takes the registry and the current time in whole
//! seconds as plain values; the caller owns the clock and serializes the
//! calls, so each contract fully pins down one atomic step.

use vstd::prelude::*;

use crate::bytes::{bytes_eq, copy_bytes, dec_of, push_dec, push_str_bytes};
use crate::codec::{enc_event, encode_event};
use crate::command::{EventV, MemberAnswersV, ServerCommand};
use crate::fanout::{channel_pair, try_send_bytes, Connections};
use crate::room::{
    aggregate_of, fresh_room, member_updates_of, room_changed_v, room_wf, roster_of, Game, GameV,
    Member, MemberSt, Room, RoomV,
};
use crate::RoomError;

verus! {

use vstd::string::StringSliceAdditionalSpecFns;

/// One registered room and its code.
pub struct RoomEntry {
    pub code: Vec<u8>,
    pub room: Room,
}

/// The mathematical value of a registry entry.
#[verifier::ext_equal]
pub ghost struct EntryV {
    pub code: Seq<u8>,
    pub room: RoomV,
}

impl View for RoomEntry {
    type V = EntryV;

    open spec fn view(&self) -> EntryV {
        EntryV { code: self.code@, room: self.room@ }
    }
}

/// The registry of all live rooms.
///
/// The ghost `departed` field keeps the final value of every room that
/// ever left the registry — through a close-room command or idle
/// eviction — so contracts can state what its audiences were sent last.
pub struct Rooms {
    pub rooms: Vec<RoomEntry>,
    pub departed: Ghost<Seq<EntryV>>,
}

impl View for Rooms {
    type V = Seq<EntryV>;

    open spec fn view(&self) -> Seq<EntryV> {
        self.rooms@.map_values(|e: RoomEntry| e@)
    }
}

/// Some entry carries this room code.
pub open spec fn has_code(rs: Seq<EntryV>, code: Seq<u8>) -> bool {
    exists|i: int| 0 <= i < rs.len() && rs[i].code == code
}

/// The position of the entry carrying this code, where one exists.
pub open spec fn code_idx(rs: Seq<EntryV>, code: Seq<u8>) -> int {
    choose|i: int| 0 <= i < rs.len() && rs[i].code == code
}

/// An uppercase ASCII letter.
pub open spec fn is_upper(b: u8) -> bool {
    65 <= b <= 90
}

/// One of the five ASCII vowel letters.
pub open spec fn is_vowel(b: u8) -> bool {
    b == 65 || b == 69 || b == 73 || b == 79 || b == 85
}

/// The shape of every room code: consonant, vowel, consonant.
pub open spec fn code_wf(c: Seq<u8>) -> bool {
    &&& c.len() == 3
    &&& is_upper(c[0]) && !is_vowel(c[0])
    &&& is_upper(c[1]) && is_vowel(c[1])
    &&& is_upper(c[2]) && !is_vowel(c[2])
}

/// The registry's invariant: codes are unique and well-shaped, and every
/// room is internally well-formed.
pub open spec fn rooms_wf(rs: Seq<EntryV>) -> bool {
    &&& forall|i: int, j: int| 0 <= i < j < rs.len() ==> rs[i].code != rs[j].code
    &&& forall|i: int| 0 <= i < rs.len() ==> code_wf((#[trigger] rs[i]).code)
    &&& forall|i: int| 0 <= i < rs.len() ==> room_wf((#[trigger] rs[i]).room)
}

impl Rooms {
    /// An empty registry: no rooms, none departed.
    pub fn new() -> (r: Self)
        ensures
            r@ == Seq::<EntryV>::empty(),
            rooms_wf(r@),
            r.departed@ == Seq::<EntryV>::empty(),
    {
        let r = Rooms { rooms: Vec::new(), departed: Ghost(Seq::empty()) };
        proof {
            assert(r@ =~= Seq::<EntryV>::empty());
        }
        r
    }
}

/// Relies on rand's `Rng::gen_range` over a half-open integer range on the
/// thread-local generator: returns a value below `n`, and panics only on
/// an empty range, which `n >= 1` rules out.
#[verifier::external_body]
fn rand_below(n: u32) -> (r: u32)
    requires
        n >= 1,
    ensures
        r < n,
{
    rand::Rng::gen_range(&mut rand::thread_rng(), 0..n)
}

/// Relies on `String::from_utf8`: bytes that are valid UTF-8 decode to
/// the string of exactly those bytes.
#[verifier::external_body]
pub(crate) fn utf8_to_string(v: Vec<u8>) -> (r: String)
    requires
        vstd::utf8::valid_utf8(v@),
    ensures
        vstd::utf8::encode_utf8(r@) == v@,
{
    String::from_utf8(v).unwrap_or_default()
}

/// The consonant at position `k` of the alphabet with the vowels taken
/// out.
fn consonant_byte(k: u32) -> (r: u8)
    requires
        k < 21,
    ensures
        is_upper(r) && !is_vowel(r),
{
    let mut v: u32 = k + 1;
    if v >= 4 {
        v += 1;
    }
    if v >= 8 {
        v += 1;
    }
    if v >= 14 {
        v += 1;
    }
    if v >= 20 {
        v += 1;
    }
    65 + (v as u8)
}

/// The vowel at position `k` of the five-letter vowel set.
fn vowel_byte(k: u32) -> (r: u8)
    requires
        k < 5,
    ensures
        is_upper(r) && is_vowel(r),
{
    if k == 0 {
        65
    } else if k == 1 {
        69
    } else if k == 2 {
        73
    } else if k == 3 {
        79
    } else {
        85
    }
}

/// Draws a fresh three-letter code: every draw, kept or discarded, has
/// the consonant-vowel-consonant shape.
pub fn random_room_code() -> (r: Vec<u8>)
    ensures
        code_wf(r@),
{
    let mut out: Vec<u8> = Vec::new();
    out.push(consonant_byte(rand_below(21)));
    out.push(vowel_byte(rand_below(5)));
    out.push(consonant_byte(rand_below(21)));
    out
}

/// The position of the room with this code, where the registry has one.
fn find_room(rooms: &Rooms, code: &[u8]) -> (r: Option<usize>)
    ensures
        match r {
            Some(i) => i < rooms@.len() && rooms@[i as int].code == code@,
            None => !has_code(rooms@, code@),
        },
{
    let mut i: usize = 0;
    while i < rooms.rooms.len()
        invariant
            i <= rooms.rooms@.len(),
            forall|j: int| 0 <= j < i ==> (#[trigger] rooms@[j]).code != code@,
        decreases rooms.rooms@.len() - i,
    {
        if bytes_eq(rooms.rooms[i].code.as_slice(), code) {
            return Some(i);
        }
        i += 1;
    }
    None
}

/// Creates a room under a fresh random code and returns the code.
///
/// On success the new room is exactly [`fresh_room`]: idle, default
/// duration and question set, only the default group, no members.  The
/// code always has the consonant-vowel-consonant shape.  After thirty
/// colliding draws the registry is unchanged and the call fails with
/// `RoomFull`; whether that happens depends on the random draws, so no
/// more is promised about when — except that on an empty registry no
/// draw can collide, so the call succeeds.
pub fn create_room(rooms: &mut Rooms, now: u64) -> (r: Result<String, RoomError>)
    requires
        rooms_wf(old(rooms)@),
    ensures
        rooms_wf(final(rooms)@),
        match r {
            Ok(code) => {
                &&& final(rooms)@.len() == old(rooms)@.len() + 1
                &&& final(rooms)@ == old(rooms)@.push(final(rooms)@.last())
                &&& code_wf(final(rooms)@.last().code)
                &&& !has_code(old(rooms)@, final(rooms)@.last().code)
                &&& final(rooms)@.last().room == fresh_room(now)
                &&& vstd::utf8::encode_utf8(code@) == final(rooms)@.last().code
            },
            Err(e) => {
                &&& e == RoomError::RoomFull
                &&& old(rooms)@.len() > 0
                &&& final(rooms)@ == old(rooms)@
            },
        },
        old(rooms)@.len() == 0 ==> r is Ok,
        final(rooms).departed@ == old(rooms).departed@,
{
    let mut attempts: usize = 0;
    while attempts < 30
        invariant
            *rooms == *old(rooms),
            rooms_wf(rooms@),
            attempts > 0 ==> old(rooms)@.len() > 0,
        decreases 30 - attempts,
    {
        let code = random_room_code();
        if find_room(rooms, code.as_slice()).is_none() {
            proof {
                crate::bytes::lemma_ascii_bytes_valid(code@);
            }
            let text = utf8_to_string(copy_bytes(&code));
            let entry = RoomEntry { code, room: Room::new(now) };
            rooms.rooms.push(entry);
            proof {
                assert(rooms@ =~= old(rooms)@.push(rooms@.last()));
                assert forall|i: int, j: int|
                    0 <= i < j < rooms@.len() implies (#[trigger] rooms@[i]).code != (
                #[trigger] rooms@[j]).code by {
                    if j == rooms@.len() - 1 {
                        assert(!has_code(old(rooms)@, rooms@[j].code));
                    }
                }
            }
            return Ok(text);
        }
        attempts += 1;
    }
    Err(RoomError::RoomFull)
}

/// The value of the member a join appends: offline, in the default group,
/// no answers, and a default name carrying the slot number.
pub open spec fn new_member_v(slot: u32) -> MemberSt {
    MemberSt {
        sckid: slot,
        online: 0,
        name: "Aluno #".spec_bytes() + dec_of(slot as nat),
        group: 0,
        sent: Seq::empty(),
        answers: Seq::empty(),
        kicked: false,
    }
}

/// A registry entry with only the room's idle-eviction clock refreshed.
pub open spec fn touched(e: EntryV, now: u64) -> EntryV {
    EntryV { code: e.code, room: RoomV { last_interaction: now, ..e.room } }
}

/// Appends a member to a room that exists and is idle, and returns the
/// new one-based slot.
///
/// Slots are the member-list length plus one, so they rise strictly from
/// one and are never reused.  A missing room fails with `RoomNotFound`
/// and changes nothing.  A room whose activity is running or over fails
/// with `GameAlreadyStarted` and only refreshes the room's clock, leaving
/// the member list alone.  A full member list fails with `RoomFull`.
pub fn join_room(rooms: &mut Rooms, room: &str, now: u64) -> (r: Result<u32, RoomError>)
    requires
        rooms_wf(old(rooms)@),
    ensures
        rooms_wf(final(rooms)@),
        ({
            let code = room.spec_bytes();
            match r {
                Ok(slot) => {
                    &&& has_code(old(rooms)@, code)
                    &&& ({
                        let i = code_idx(old(rooms)@, code);
                        let pre = old(rooms)@[i];
                        &&& pre.room.game is Idle
                        &&& slot == pre.room.members.len() + 1
                        &&& final(rooms)@ == old(rooms)@.update(
                            i,
                            EntryV {
                                code: pre.code,
                                room: RoomV {
                                    last_interaction: now,
                                    members: pre.room.members.push(new_member_v(slot)),
                                    ..pre.room
                                },
                            },
                        )
                    })
                },
                Err(RoomError::RoomNotFound) => !has_code(old(rooms)@, code) && final(rooms)@
                    == old(rooms)@,
                Err(RoomError::GameAlreadyStarted) => {
                    &&& has_code(old(rooms)@, code)
                    &&& ({
                        let i = code_idx(old(rooms)@, code);
                        &&& !(old(rooms)@[i].room.game is Idle)
                        &&& final(rooms)@ == old(rooms)@.update(i, touched(old(rooms)@[i], now))
                    })
                },
                Err(RoomError::RoomFull) => {
                    &&& has_code(old(rooms)@, code)
                    &&& ({
                        let i = code_idx(old(rooms)@, code);
                        &&& old(rooms)@[i].room.game is Idle
                        &&& old(rooms)@[i].room.members.len() >= crate::room::max_members()
                        &&& final(rooms)@ == old(rooms)@.update(i, touched(old(rooms)@[i], now))
                    })
                },
                Err(_) => false,
            }
        }),
        final(rooms).departed@ == old(rooms).departed@,
{
    let i = match find_room(rooms, room.as_bytes()) {
        Some(i) => i,
        None => {
            return Err(RoomError::RoomNotFound);
        },
    };
    proof {
        lemma_code_idx(rooms@, room.spec_bytes(), i as int);
    }
    rooms.rooms[i].room.interacted(now);
    if !idle_game(&rooms.rooms[i].room.game) {
        proof {
            assert(rooms@ =~= old(rooms)@.update(i as int, touched(old(rooms)@[i as int], now)));
            lemma_wf_update_touched(old(rooms)@, i as int, now);
        }
        return Err(RoomError::GameAlreadyStarted);
    }
    if rooms.rooms[i].room.members.len() >= 0xFFFF_FFFEusize {
        proof {
            assert(rooms@ =~= old(rooms)@.update(i as int, touched(old(rooms)@[i as int], now)));
            lemma_wf_update_touched(old(rooms)@, i as int, now);
        }
        return Err(RoomError::RoomFull);
    }
    let slot: u32 = (rooms.rooms[i].room.members.len() as u32) + 1;
    let mut name: Vec<u8> = Vec::new();
    push_str_bytes(&mut name, "Aluno #");
    push_dec(&mut name, slot);
    let member = Member {
        sckid: slot,
        online: 0,
        name,
        group: 0,
        conns: Connections::new(),
        answers: Vec::new(),
        kicked: false,
    };
    rooms.rooms[i].room.members.push(member);
    proof {
        let ghost iidx = i as int;
        let ghost pre = old(rooms)@[iidx];
        assert(rooms@[iidx].room.members =~= pre.room.members.push(new_member_v(slot)));
        assert(rooms@ =~= old(rooms)@.update(
            iidx,
            EntryV {
                code: pre.code,
                room: RoomV {
                    last_interaction: now,
                    members: pre.room.members.push(new_member_v(slot)),
                    ..pre.room
                },
            },
        ));
        assert forall|k: int|
            0 <= k < rooms@.len() implies room_wf((#[trigger] rooms@[k]).room) by {
            if k == iidx {
                assert forall|m: int|
                    0 <= m < rooms@[k].room.members.len() implies group_exists_member(
                    rooms@[k].room,
                    m,
                ) by {
                    if m < pre.room.members.len() {
                        assert(group_exists_member(pre.room, m));
                    } else {
                        assert(rooms@[k].room.groups[0].id == 0);
                    }
                }
            }
        }
    }
    Ok(slot)
}

/// The member at position `m` names a group of the room.
pub open spec fn group_exists_member(r: RoomV, m: int) -> bool {
    crate::room::group_exists(r.groups, r.members[m].group)
}

/// The found position is the position the specification names.
proof fn lemma_code_idx(rs: Seq<EntryV>, code: Seq<u8>, i: int)
    requires
        rooms_wf(rs),
        0 <= i < rs.len(),
        rs[i].code == code,
    ensures
        has_code(rs, code),
        code_idx(rs, code) == i,
{
    let j = code_idx(rs, code);
    assert(0 <= j < rs.len() && rs[j].code == code);
    if i < j {
        assert(rs[i].code != rs[j].code);
    } else if j < i {
        assert(rs[j].code != rs[i].code);
    }
}

/// Refreshing one room's clock keeps the registry well-formed.
proof fn lemma_wf_update_touched(rs: Seq<EntryV>, i: int, now: u64)
    requires
        rooms_wf(rs),
        0 <= i < rs.len(),
    ensures
        rooms_wf(rs.update(i, touched(rs[i], now))),
{
    let post = rs.update(i, touched(rs[i], now));
    assert forall|k: int| 0 <= k < post.len() implies room_wf((#[trigger] post[k]).room) by {
        assert(room_wf(rs[k].room));
        if k == i {
            crate::room::lemma_wf_like(rs[i].room, post[i].room);
        }
    }
}

/// True exactly in the idle phase.
fn idle_game(g: &Game) -> (r: bool)
    ensures
        r == (g@ is Idle),
{
    matches!(g, Game::Idle)
}

/// True exactly when the room exists and the slot may connect: slot zero
/// always may, a member slot must be on the list and not kicked.
pub fn check_exists(rooms: &Rooms, room: &str, sckid: u32) -> (r: bool)
    requires
        rooms_wf(rooms@),
    ensures
        r == ({
            let code = room.spec_bytes();
            &&& has_code(rooms@, code)
            &&& (sckid == 0 || {
                let rm = rooms@[code_idx(rooms@, code)].room;
                &&& sckid - 1 < rm.members.len()
                &&& !rm.members[sckid - 1].kicked
            })
        }),
{
    let i = match find_room(rooms, room.as_bytes()) {
        Some(i) => i,
        None => {
            return false;
        },
    };
    proof {
        lemma_code_idx(rooms@, room.spec_bytes(), i as int);
    }
    if sckid == 0 {
        return true;
    }
    let idx = (sckid - 1) as usize;
    idx < rooms.rooms[i].room.members.len() && !rooms.rooms[i].room.members[idx].kicked
}

/// The byte sequences of a list of encoded messages.
pub open spec fn vecs_view(s: Seq<Vec<u8>>) -> Seq<Seq<u8>> {
    s.map_values(|v: Vec<u8>| v@)
}

/// The group-updated messages of a snapshot: one per group, in table
/// order.
pub open spec fn group_msgs(gs: Seq<crate::room::GroupV>) -> Seq<Seq<u8>>
    decreases gs.len(),
{
    if gs.len() == 0 {
        Seq::empty()
    } else {
        group_msgs(gs.drop_last()).push(
            enc_event(
                EventV::GroupUpdated {
                    group: gs.last().id,
                    name: gs.last().name,
                    color: gs.last().color,
                },
            ),
        )
    }
}

/// The seconds a running activity still has at `now`; the deadline
/// saturates at the largest `u64` and the remainder at the largest `u32`.
pub open spec fn remaining_of(start: u64, event_time: u32, extra: u32, now: u64) -> u32 {
    let d: int = start + event_time + extra;
    let dsat: int = if d > 0xFFFF_FFFF_FFFF_FFFF {
        0xFFFF_FFFF_FFFF_FFFF
    } else {
        d
    };
    if now >= dsat {
        0u32
    } else if dsat - now > 0xFFFF_FFFF {
        0xFFFF_FFFFu32
    } else {
        (dsat - now) as u32
    }
}

/// A running activity's deadline has passed at `now`; the deadline
/// saturates at the largest `u64`.
pub open spec fn expired(r: RoomV, now: u64) -> bool {
    match r.game {
        GameV::Started { start, extra } => {
            let d: int = start + r.event_time + extra;
            let dsat: int = if d > 0xFFFF_FFFF_FFFF_FFFF {
                0xFFFF_FFFF_FFFF_FFFF
            } else {
                d
            };
            now > dsat
        },
        _ => false,
    }
}

/// The snapshot a fresh connection replays before any live event: the
/// room configuration, every group, the roster, every present member,
/// and then what the phase asks: nothing when idle; the answer aggregate
/// (all members for the moderator, the own answers for a member) and the
/// remaining time when started; the cached finished message when ended.
pub open spec fn snapshot_msgs(r: RoomV, sckid: u32, now: u64) -> Seq<Seq<u8>> {
    let head = seq![enc_event(room_changed_v(r))] + group_msgs(r.groups) + seq![
        enc_event(EventV::MembersChanged { members: roster_of(r.members) }),
    ] + member_updates_of(r.members);
    match r.game {
        GameV::Idle => head,
        GameV::Started { start, extra } => {
            let agg = if sckid == 0 {
                aggregate_of(r.members)
            } else {
                seq![
                    MemberAnswersV {
                        member: r.members[sckid - 1].wire(),
                        answers: r.members[sckid - 1].answers,
                    },
                ]
            };
            head + seq![
                enc_event(EventV::AnswersChanged { answers: agg }),
                enc_event(
                    EventV::Started {
                        remaining: remaining_of(start, r.event_time, extra, now),
                    },
                ),
            ]
        },
        GameV::Ended { message } => head.push(message),
    }
}

/// One fresh connection: the receiving end of its outbound channel, and
/// (as a ghost) the snapshot that was queued on it before it was handed
/// out.
pub struct RoomStream {
    pub rx: tokio::sync::mpsc::Receiver<Vec<u8>>,
    pub queued: Ghost<Seq<Seq<u8>>>,
}

/// Builds the snapshot-replay messages for a fresh connection.
#[verifier::rlimit(100)]
fn build_snapshot(rm: &Room, sckid: u32, now: u64) -> (msgs: Vec<Vec<u8>>)
    requires
        sckid <= rm@.members.len(),
    ensures
        vecs_view(msgs@) == snapshot_msgs(rm@, sckid, now),
{
    let mut msgs: Vec<Vec<u8>> = Vec::new();
    let e0 = rm.into_message();
    msgs.push(encode_event(&e0));
    let mut g: usize = 0;
    while g < rm.groups.len()
        invariant
            g <= rm.groups@.len(),
            vecs_view(msgs@) =~= seq![enc_event(room_changed_v(rm@))] + group_msgs(
                rm@.groups.subrange(0, g as int),
            ),
        decreases rm.groups@.len() - g,
    {
        let ge = ServerCommand::GroupUpdated {
            group: rm.groups[g].id,
            name: copy_bytes(&rm.groups[g].name),
            color: copy_bytes(&rm.groups[g].color),
        };
        let ghost mprev = msgs@;
        msgs.push(encode_event(&ge));
        proof {
            assert(vecs_view(msgs@) =~= vecs_view(mprev).push(enc_event(ge@)));
            assert(rm@.groups.subrange(0, g + 1 as int).drop_last() =~= rm@.groups.subrange(
                0,
                g as int,
            ));
            assert(rm@.groups.subrange(0, g + 1 as int).last() == rm@.groups[g as int]);
            assert(ge@ == (EventV::GroupUpdated {
                group: rm@.groups[g as int].id,
                name: rm@.groups[g as int].name,
                color: rm@.groups[g as int].color,
            }));
            assert(group_msgs(rm@.groups.subrange(0, g + 1 as int)) == group_msgs(
                rm@.groups.subrange(0, g as int),
            ).push(enc_event(ge@)));
            assert(vecs_view(msgs@) =~= seq![enc_event(room_changed_v(rm@))] + group_msgs(
                rm@.groups.subrange(0, g + 1 as int),
            ));
        }
        g += 1;
    }
    proof {
        assert(rm@.groups.subrange(0, rm@.groups.len() as int) =~= rm@.groups);
    }
    let roster = rm.get_group_members();
    let e1 = ServerCommand::MembersChanged { members: roster };
    msgs.push(encode_event(&e1));
    let ghost head0 = seq![enc_event(room_changed_v(rm@))] + group_msgs(rm@.groups) + seq![
        enc_event(EventV::MembersChanged { members: roster_of(rm@.members) }),
    ];
    proof {
        assert(vecs_view(msgs@) =~= head0);
    }
    let mut k: usize = 0;
    while k < rm.members.len()
        invariant
            k <= rm.members@.len(),
            vecs_view(msgs@) =~= head0 + member_updates_of(rm@.members.subrange(0, k as int)),
        decreases rm.members@.len() - k,
    {
        proof {
            assert(rm@.members.subrange(0, k + 1 as int).drop_last() =~= rm@.members.subrange(
                0,
                k as int,
            ));
            assert(rm@.members.subrange(0, k + 1 as int).last() == rm@.members[k as int]);
        }
        let ghost mprev = msgs@;
        if rm.members[k].online > 0 && !rm.members[k].kicked {
            let me = ServerCommand::MemberUpdated {
                member: crate::room::wire_member(&rm.members[k]),
            };
            msgs.push(encode_event(&me));
            proof {
                assert(vecs_view(msgs@) =~= vecs_view(mprev).push(enc_event(me@)));
                assert(me@ == (EventV::MemberUpdated { member: rm@.members[k as int].wire() }));
                assert(member_updates_of(rm@.members.subrange(0, k + 1 as int))
                    == member_updates_of(rm@.members.subrange(0, k as int)).push(
                    enc_event(me@),
                ));
            }
        } else {
            proof {
                assert(member_updates_of(rm@.members.subrange(0, k + 1 as int))
                    == member_updates_of(rm@.members.subrange(0, k as int)));
            }
        }
        proof {
            assert(vecs_view(msgs@) =~= head0 + member_updates_of(
                rm@.members.subrange(0, k + 1 as int),
            ));
        }
        k += 1;
    }
    proof {
        assert(rm@.members.subrange(0, rm@.members.len() as int) =~= rm@.members);
    }
    match &rm.game {
        Game::Idle => {},
        Game::Started { start, extra } => {
            let agg = if sckid == 0 {
                rm.get_answers()
            } else {
                let mut one: Vec<crate::command::MemberAnswers> = Vec::new();
                one.push(crate::room::member_answers_entry(&rm.members[(sckid - 1) as usize]));
                one
            };
            proof {
                if sckid != 0 {
                    assert(crate::command::member_answers_view(agg@) =~= seq![
                        MemberAnswersV {
                            member: rm@.members[sckid - 1].wire(),
                            answers: rm@.members[sckid - 1].answers,
                        },
                    ]);
                }
            }
            let ea = ServerCommand::AnswersChanged { answers: agg };
            msgs.push(encode_event(&ea));
            let s1: u64 = rm.event_time as u64 + *extra as u64;
            let dsat: u64 = if *start > 0xFFFF_FFFF_FFFF_FFFFu64 - s1 {
                0xFFFF_FFFF_FFFF_FFFFu64
            } else {
                *start + s1
            };
            let rem64: u64 = if now >= dsat {
                0
            } else {
                dsat - now
            };
            let rem: u32 = if rem64 > 0xFFFF_FFFFu64 {
                0xFFFF_FFFFu32
            } else {
                rem64 as u32
            };
            proof {
                assert(rem == remaining_of(*start, rm.event_time, *extra, now));
            }
            let es = ServerCommand::Started { remaining: rem };
            msgs.push(encode_event(&es));
        },
        Game::Ended { message } => {
            msgs.push(copy_bytes(message));
        },
    }
    proof {
        assert(vecs_view(msgs@) =~= snapshot_msgs(rm@, sckid, now));
    }
    msgs
}

/// Opens a connection to a room: registers a fresh outbound channel with
/// the moderator audience (slot zero) or the member's audience, after
/// queueing the snapshot replay on it, and returns the receiving end.
///
/// A missing room fails with `RoomNotFound` and changes nothing.  A slot
/// beyond the member list fails with `SlotOutOfRange`, a kicked slot with
/// `SlotKicked`; in both cases only the room's clock is refreshed.
#[verifier::rlimit(100)]
pub fn connect_room(rooms: &mut Rooms, room: &str, sckid: u32, now: u64) -> (r: Result<
    RoomStream,
    RoomError,
>)
    requires
        rooms_wf(old(rooms)@),
    ensures
        rooms_wf(final(rooms)@),
        ({
            let code = room.spec_bytes();
            match r {
                Ok(stream) => {
                    &&& has_code(old(rooms)@, code)
                    &&& ({
                        let i = code_idx(old(rooms)@, code);
                        let pre = old(rooms)@[i];
                        &&& sckid <= pre.room.members.len()
                        &&& (sckid >= 1 ==> !pre.room.members[sckid - 1].kicked)
                        &&& final(rooms)@ == old(rooms)@.update(i, touched(pre, now))
                        &&& stream.queued@ == snapshot_msgs(touched(pre, now).room, sckid, now)
                        &&& (sckid == 0 ==> final(rooms).rooms@[i].room.conns.count() == old(
                            rooms,
                        ).rooms@[i].room.conns.count() + 1)
                        &&& (sckid >= 1 ==> final(rooms).rooms@[i].room.members@[sckid
                            - 1].conns.count() == old(rooms).rooms@[i].room.members@[sckid
                            - 1].conns.count() + 1)
                        &&& (sckid == 0 ==> final(rooms).rooms@[i].room.conns.flags() == old(
                            rooms,
                        ).rooms@[i].room.conns.flags().push(true))
                        &&& (sckid >= 1 ==> final(rooms).rooms@[i].room.members@[sckid
                            - 1].conns.flags() == old(rooms).rooms@[i].room.members@[sckid
                            - 1].conns.flags().push(true))
                        &&& (forall|j: int|
                            0 <= j < old(rooms).rooms@.len() && j != i
                                ==> final(rooms).rooms@[j] == old(rooms).rooms@[j])
                    })
                },
                Err(RoomError::RoomNotFound) => !has_code(old(rooms)@, code) && *final(rooms)
                    == *old(rooms),
                Err(RoomError::SlotOutOfRange) => {
                    &&& has_code(old(rooms)@, code)
                    &&& ({
                        let i = code_idx(old(rooms)@, code);
                        &&& sckid > old(rooms)@[i].room.members.len()
                        &&& final(rooms)@ == old(rooms)@.update(i, touched(old(rooms)@[i], now))
                        &&& final(rooms).rooms@[i].room == (Room {
                            last_interaction: now,
                            ..old(rooms).rooms@[i].room
                        })
                        &&& (forall|j: int|
                            0 <= j < old(rooms).rooms@.len() && j != i
                                ==> final(rooms).rooms@[j] == old(rooms).rooms@[j])
                    })
                },
                Err(RoomError::SlotKicked) => {
                    &&& has_code(old(rooms)@, code)
                    &&& ({
                        let i = code_idx(old(rooms)@, code);
                        &&& 1 <= sckid <= old(rooms)@[i].room.members.len()
                        &&& old(rooms)@[i].room.members[sckid - 1].kicked
                        &&& final(rooms)@ == old(rooms)@.update(i, touched(old(rooms)@[i], now))
                        &&& final(rooms).rooms@[i].room == (Room {
                            last_interaction: now,
                            ..old(rooms).rooms@[i].room
                        })
                        &&& (forall|j: int|
                            0 <= j < old(rooms).rooms@.len() && j != i
                                ==> final(rooms).rooms@[j] == old(rooms).rooms@[j])
                    })
                },
                Err(_) => false,
            }
        }),
        final(rooms).departed@ == old(rooms).departed@,
{
    let i = match find_room(rooms, room.as_bytes()) {
        Some(i) => i,
        None => {
            return Err(RoomError::RoomNotFound);
        },
    };
    proof {
        lemma_code_idx(rooms@, room.spec_bytes(), i as int);
    }
    rooms.rooms[i].room.interacted(now);
    proof {
        assert(rooms@ =~= old(rooms)@.update(i as int, touched(old(rooms)@[i as int], now)));
        lemma_wf_update_touched(old(rooms)@, i as int, now);
    }
    let mlen = rooms.rooms[i].room.members.len();
    if sckid as usize > mlen {
        return Err(RoomError::SlotOutOfRange);
    }
    if sckid != 0 && rooms.rooms[i].room.members[(sckid - 1) as usize].kicked {
        return Err(RoomError::SlotKicked);
    }
    let ghost pre = old(rooms)@[i as int];
    let msgs = build_snapshot(&rooms.rooms[i].room, sckid, now);
    let cap_max: usize = usize::MAX / 8;
    proof {
        assert(usize::MAX >= 0xFFFF_FFFF);
    }
    let cap = if msgs.len() > cap_max - 8 {
        cap_max
    } else {
        msgs.len() + 8
    };
    let pair = channel_pair(cap);
    let tx = pair.0;
    let rx = pair.1;
    let mut q: usize = 0;
    while q < msgs.len()
        invariant
            q <= msgs@.len(),
        decreases msgs@.len() - q,
    {
        let _delivered = try_send_bytes(&tx, copy_bytes(&msgs[q]));
        q += 1;
    }
    let ghost queued_msgs = vecs_view(msgs@);
    if sckid == 0 {
        rooms.rooms[i].room.conns.push(tx);
    } else {
        rooms.rooms[i].room.members[(sckid - 1) as usize].conns.push(tx);
    }
    proof {
        assert(rooms@ =~~= old(rooms)@.update(i as int, touched(pre, now)));
        lemma_wf_update_touched(old(rooms)@, i as int, now);
    }
    Ok(RoomStream { rx, queued: Ghost(queued_msgs) })
}

/// A room after one more live connection was counted for a member: the
/// count rises (capped at the largest `u64`), and exactly the zero-to-one
/// transition broadcasts the member and the roster to all.  A kicked
/// slot is left alone.
pub open spec fn bump_online_step(pre: RoomV, idx: int) -> RoomV {
    if pre.members[idx].kicked {
        pre
    } else {
        let m0 = pre.members[idx];
        let m1 = MemberSt {
            online: if m0.online == 0xFFFF_FFFF_FFFF_FFFF {
                m0.online
            } else {
                (m0.online + 1) as u64
            },
            ..m0
        };
        let ms = pre.members.update(idx, m1);
        let r1 = RoomV { members: ms, ..pre };
        if m0.online == 0 {
            let r2 = crate::room::sent_all(
                r1,
                enc_event(EventV::MemberUpdated { member: m1.wire() }),
            );
            crate::room::sent_all(
                r2,
                enc_event(EventV::MembersChanged { members: roster_of(ms) }),
            )
        } else {
            r1
        }
    }
}

/// A room after one live connection of a member went away: a positive
/// count falls, and exactly the one-to-zero transition broadcasts the
/// removal and the roster to all.  A kicked slot, or a count already at
/// zero, is left alone.
pub open spec fn drop_online_step(pre: RoomV, idx: int) -> RoomV {
    if pre.members[idx].kicked || pre.members[idx].online == 0 {
        pre
    } else {
        let m0 = pre.members[idx];
        let m1 = MemberSt { online: (m0.online - 1) as u64, ..m0 };
        let ms = pre.members.update(idx, m1);
        let r1 = RoomV { members: ms, ..pre };
        if m0.online == 1 {
            let r2 = crate::room::sent_all(
                r1,
                enc_event(EventV::MemberRemoved { sckid: m0.sckid }),
            );
            crate::room::sent_all(
                r2,
                enc_event(EventV::MembersChanged { members: roster_of(ms) }),
            )
        } else {
            r1
        }
    }
}

/// Counts one more live connection for a member slot.
///
/// Slot zero is not tracked: the call only refreshes the room's clock.
/// The member and the roster are broadcast exactly when the member came
/// online (its count rose from zero); any later connection of the same
/// member broadcasts nothing.
#[verifier::rlimit(50)]
pub fn increment_online(rooms: &mut Rooms, room: &str, sckid: u32, now: u64) -> (r: Result<
    (),
    RoomError,
>)
    requires
        rooms_wf(old(rooms)@),
    ensures
        rooms_wf(final(rooms)@),
        ({
            let code = room.spec_bytes();
            match r {
                Ok(()) => {
                    &&& has_code(old(rooms)@, code)
                    &&& ({
                        let i = code_idx(old(rooms)@, code);
                        let pre = old(rooms)@[i];
                        if sckid == 0 {
                            final(rooms)@ == old(rooms)@.update(i, touched(pre, now))
                        } else {
                            &&& sckid - 1 < pre.room.members.len()
                            &&& final(rooms)@ == old(rooms)@.update(
                                i,
                                EntryV {
                                    code: pre.code,
                                    room: bump_online_step(touched(pre, now).room, sckid - 1),
                                },
                            )
                        }
                    })
                },
                Err(RoomError::RoomNotFound) => !has_code(old(rooms)@, code) && final(rooms)@
                    == old(rooms)@,
                Err(RoomError::SlotOutOfRange) => {
                    &&& has_code(old(rooms)@, code)
                    &&& sckid >= 1
                    &&& ({
                        let i = code_idx(old(rooms)@, code);
                        &&& sckid - 1 >= old(rooms)@[i].room.members.len()
                        &&& final(rooms)@ == old(rooms)@.update(i, touched(old(rooms)@[i], now))
                    })
                },
                Err(_) => false,
            }
        }),
        final(rooms).departed@ == old(rooms).departed@,
{
    let i = match find_room(rooms, room.as_bytes()) {
        Some(i) => i,
        None => {
            return Err(RoomError::RoomNotFound);
        },
    };
    proof {
        lemma_code_idx(rooms@, room.spec_bytes(), i as int);
    }
    rooms.rooms[i].room.interacted(now);
    proof {
        assert(rooms@ =~~= old(rooms)@.update(i as int, touched(old(rooms)@[i as int], now)));
        lemma_wf_update_touched(old(rooms)@, i as int, now);
    }
    if sckid == 0 {
        return Ok(());
    }
    let idx = (sckid - 1) as usize;
    if idx >= rooms.rooms[i].room.members.len() {
        return Err(RoomError::SlotOutOfRange);
    }
    let ghost mid = touched(old(rooms)@[i as int], now).room;
    if rooms.rooms[i].room.members[idx].kicked {
        proof {
            assert(rooms@[i as int].room =~~= bump_online_step(mid, idx as int));
            assert(rooms@ =~~= old(rooms)@.update(
                i as int,
                EntryV { code: old(rooms)@[i as int].code, room: bump_online_step(mid, idx as int) },
            ));
        }
        return Ok(());
    }
    let was = rooms.rooms[i].room.members[idx].online;
    if was < 0xFFFF_FFFF_FFFF_FFFFu64 {
        rooms.rooms[i].room.members[idx].online = was + 1;
    }
    if was == 0 {
        let e = ServerCommand::MemberUpdated {
            member: crate::room::wire_member(&rooms.rooms[i].room.members[idx]),
        };
        let msg = encode_event(&e);
        rooms.rooms[i].room.send_all(&msg);
        let ghost ms = mid.members.update(
            idx as int,
            MemberSt { online: 1u64, ..mid.members[idx as int] },
        );
        let roster = rooms.rooms[i].room.get_group_members();
        proof {
            crate::room::lemma_roster_same(rooms@[i as int].room.members, ms);
        }
        let e2 = ServerCommand::MembersChanged { members: roster };
        let msg2 = encode_event(&e2);
        rooms.rooms[i].room.send_all(&msg2);
        proof {
            assert(rooms@[i as int].room =~~= bump_online_step(mid, idx as int));
        }
    } else {
        proof {
            assert(rooms@[i as int].room =~~= bump_online_step(mid, idx as int));
        }
    }
    proof {
        assert(rooms@ =~~= old(rooms)@.update(
            i as int,
            EntryV { code: old(rooms)@[i as int].code, room: bump_online_step(mid, idx as int) },
        ));
        assert forall|k: int| 0 <= k < rooms@.len() implies room_wf((#[trigger] rooms@[k]).room) by {
            assert(room_wf(old(rooms)@[k].room));
            if k == i as int {
                crate::room::lemma_wf_like(old(rooms)@[k].room, rooms@[k].room);
            }
        }
    }
    Ok(())
}

/// Counts one live connection of a member slot as gone.
///
/// Slot zero is not tracked: the call only refreshes the room's clock.
/// The removal and the roster are broadcast exactly when the member went
/// offline (its count fell from one to zero); other transitions, a
/// kicked slot, and a count already at zero broadcast nothing.
#[verifier::rlimit(50)]
pub fn decrement_online(rooms: &mut Rooms, room: &str, sckid: u32, now: u64) -> (r: Result<
    (),
    RoomError,
>)
    requires
        rooms_wf(old(rooms)@),
    ensures
        rooms_wf(final(rooms)@),
        ({
            let code = room.spec_bytes();
            match r {
                Ok(()) => {
                    &&& has_code(old(rooms)@, code)
                    &&& ({
                        let i = code_idx(old(rooms)@, code);
                        let pre = old(rooms)@[i];
                        if sckid == 0 {
                            final(rooms)@ == old(rooms)@.update(i, touched(pre, now))
                        } else {
                            &&& sckid - 1 < pre.room.members.len()
                            &&& final(rooms)@ == old(rooms)@.update(
                                i,
                                EntryV {
                                    code: pre.code,
                                    room: drop_online_step(touched(pre, now).room, sckid - 1),
                                },
                            )
                        }
                    })
                },
                Err(RoomError::RoomNotFound) => !has_code(old(rooms)@, code) && final(rooms)@
                    == old(rooms)@,
                Err(RoomError::SlotOutOfRange) => {
                    &&& has_code(old(rooms)@, code)
                    &&& sckid >= 1
                    &&& ({
                        let i = code_idx(old(rooms)@, code);
                        &&& sckid - 1 >= old(rooms)@[i].room.members.len()
                        &&& final(rooms)@ == old(rooms)@.update(i, touched(old(rooms)@[i], now))
                    })
                },
                Err(_) => false,
            }
        }),
        final(rooms).departed@ == old(rooms).departed@,
{
    let i = match find_room(rooms, room.as_bytes()) {
        Some(i) => i,
        None => {
            return Err(RoomError::RoomNotFound);
        },
    };
    proof {
        lemma_code_idx(rooms@, room.spec_bytes(), i as int);
    }
    rooms.rooms[i].room.interacted(now);
    proof {
        assert(rooms@ =~~= old(rooms)@.update(i as int, touched(old(rooms)@[i as int], now)));
        lemma_wf_update_touched(old(rooms)@, i as int, now);
    }
    if sckid == 0 {
        return Ok(());
    }
    let idx = (sckid - 1) as usize;
    if idx >= rooms.rooms[i].room.members.len() {
        return Err(RoomError::SlotOutOfRange);
    }
    let ghost mid = touched(old(rooms)@[i as int], now).room;
    let was = rooms.rooms[i].room.members[idx].online;
    if rooms.rooms[i].room.members[idx].kicked || was == 0 {
        proof {
            assert(rooms@[i as int].room =~~= drop_online_step(mid, idx as int));
            assert(rooms@ =~~= old(rooms)@.update(
                i as int,
                EntryV { code: old(rooms)@[i as int].code, room: drop_online_step(mid, idx as int) },
            ));
        }
        return Ok(());
    }
    rooms.rooms[i].room.members[idx].online = was - 1;
    if was == 1 {
        let e = ServerCommand::MemberRemoved { sckid };
        let msg = encode_event(&e);
        rooms.rooms[i].room.send_all(&msg);
        let ghost ms = mid.members.update(
            idx as int,
            MemberSt { online: 0u64, ..mid.members[idx as int] },
        );
        let roster = rooms.rooms[i].room.get_group_members();
        proof {
            crate::room::lemma_roster_same(rooms@[i as int].room.members, ms);
        }
        let e2 = ServerCommand::MembersChanged { members: roster };
        let msg2 = encode_event(&e2);
        rooms.rooms[i].room.send_all(&msg2);
        proof {
            assert(rooms@[i as int].room =~~= drop_online_step(mid, idx as int));
        }
    } else {
        proof {
            assert(rooms@[i as int].room =~~= drop_online_step(mid, idx as int));
        }
    }
    proof {
        assert(rooms@ =~~= old(rooms)@.update(
            i as int,
            EntryV { code: old(rooms)@[i as int].code, room: drop_online_step(mid, idx as int) },
        ));
        assert forall|k: int| 0 <= k < rooms@.len() implies room_wf((#[trigger] rooms@[k]).room) by {
            assert(room_wf(old(rooms)@[k].room));
            if k == i as int {
                crate::room::lemma_wf_like(old(rooms)@[k].room, rooms@[k].room);
            }
        }
    }
    Ok(())
}

/// One entry after a deadline sweep at `now`: a room whose running
/// activity is overdue ends exactly as a finish command would; any other
/// room is left alone.
pub open spec fn sweep_room(e: EntryV, now: u64) -> EntryV {
    if e.room.game is Started && expired(e.room, now) {
        EntryV { code: e.code, room: crate::room::finish_step(e.room) }
    } else {
        e
    }
}

/// The registry after the deadline sweep of one tick.
pub open spec fn sweep_deadlines(rs: Seq<EntryV>, now: u64) -> Seq<EntryV> {
    rs.map_values(|e: EntryV| sweep_room(e, now))
}

/// A room is idle once no interaction arrived for an hour.
pub open spec fn idle_room(r: RoomV, now: u64) -> bool {
    now > r.last_interaction + 3600
}

/// The entries that survive idle eviction, in order.
pub open spec fn kept_rooms(rs: Seq<EntryV>, now: u64) -> Seq<EntryV>
    decreases rs.len(),
{
    if rs.len() == 0 {
        Seq::empty()
    } else if idle_room(rs.last().room, now) {
        kept_rooms(rs.drop_last(), now)
    } else {
        kept_rooms(rs.drop_last(), now).push(rs.last())
    }
}

/// The entries that idle eviction removes, in order, each with the
/// room-closed notice it was sent last.
pub open spec fn evicted_rooms(rs: Seq<EntryV>, now: u64) -> Seq<EntryV>
    decreases rs.len(),
{
    if rs.len() == 0 {
        Seq::empty()
    } else if idle_room(rs.last().room, now) {
        evicted_rooms(rs.drop_last(), now).push(
            EntryV {
                code: rs.last().code,
                room: crate::room::sent_all(rs.last().room, enc_event(EventV::RoomClosed)),
            },
        )
    } else {
        evicted_rooms(rs.drop_last(), now)
    }
}

/// The registry after one sweeper tick: overdue activities end on every
/// tick; rooms idle for an hour are evicted on every third tick.
pub open spec fn sweep_step(rs: Seq<EntryV>, tick: u64, now: u64) -> Seq<EntryV> {
    let after = sweep_deadlines(rs, now);
    if tick % 3 == 0 {
        kept_rooms(after, now)
    } else {
        after
    }
}

/// Idle eviction keeps every surviving entry as it was, so it keeps the
/// registry well-formed.
proof fn lemma_kept_wf(rs: Seq<EntryV>, now: u64)
    requires
        rooms_wf(rs),
    ensures
        rooms_wf(kept_rooms(rs, now)),
        forall|k: int|
            0 <= k < kept_rooms(rs, now).len() ==> exists|i: int|
                0 <= i < rs.len() && rs[i] == #[trigger] kept_rooms(rs, now)[k],
    decreases rs.len(),
{
    if rs.len() > 0 {
        let d = rs.drop_last();
        assert(rooms_wf(d));
        lemma_kept_wf(d, now);
        let kd = kept_rooms(d, now);
        assert forall|k: int|
            0 <= k < kept_rooms(rs, now).len() implies exists|i: int|
            0 <= i < rs.len() && rs[i] == #[trigger] kept_rooms(rs, now)[k] by {
            if k < kd.len() {
                let i = choose|i: int| 0 <= i < d.len() && d[i] == kd[k];
                assert(rs[i] == kept_rooms(rs, now)[k]);
            } else {
                assert(rs[rs.len() - 1] == kept_rooms(rs, now)[k]);
            }
        }
        if !idle_room(rs.last().room, now) {
            assert forall|a: int, b: int|
                0 <= a < b < kept_rooms(rs, now).len() implies kept_rooms(rs, now)[a].code
                != kept_rooms(rs, now)[b].code by {
                if b == kept_rooms(rs, now).len() - 1 {
                    let i = choose|i: int| 0 <= i < d.len() && d[i] == kd[a];
                    assert(rs[i].code != rs[rs.len() - 1].code);
                }
            }
        }
    }
}

/// One sweeper tick.
///
/// Every tick ends each overdue running activity exactly as a finish
/// command would — so a room already ended is left alone, and the frozen
/// aggregate is broadcast and cached once.  Every third tick also evicts
/// each room idle for over an hour, telling its audiences the room
/// closed before it goes.
#[verifier::rlimit(100)]
pub fn periodic_routine(rooms: &mut Rooms, tick: u64, now: u64)
    requires
        rooms_wf(old(rooms)@),
    ensures
        rooms_wf(final(rooms)@),
        final(rooms)@ == sweep_step(old(rooms)@, tick, now),
        final(rooms).departed@ == if tick % 3 == 0 {
            old(rooms).departed@ + evicted_rooms(sweep_deadlines(old(rooms)@, now), now)
        } else {
            old(rooms).departed@
        },
{
    let mut i: usize = 0;
    while i < rooms.rooms.len()
        invariant
            i <= rooms.rooms@.len(),
            rooms@.len() == old(rooms)@.len(),
            forall|j: int| 0 <= j < i ==> rooms@[j] == sweep_room(old(rooms)@[j], now),
            forall|j: int| i <= j < rooms@.len() ==> rooms@[j] == old(rooms)@[j],
            rooms.departed == old(rooms).departed,
        decreases rooms.rooms@.len() - i,
    {
        let started = rooms.rooms[i].room.game.is_started();
        let overdue = if started {
            match &rooms.rooms[i].room.game {
                Game::Started { start, extra } => {
                    let s1: u64 = rooms.rooms[i].room.event_time as u64 + *extra as u64;
                    let dsat: u64 = if *start > 0xFFFF_FFFF_FFFF_FFFFu64 - s1 {
                        0xFFFF_FFFF_FFFF_FFFFu64
                    } else {
                        *start + s1
                    };
                    now > dsat
                },
                _ => false,
            }
        } else {
            false
        };
        if started && overdue {
            proof {
                assert(expired(rooms@[i as int].room, now));
            }
            rooms.rooms[i].room.cmd_finish();
            proof {
                assert(rooms@[i as int] =~~= sweep_room(old(rooms)@[i as int], now));
            }
        } else {
            proof {
                assert(rooms@[i as int] == sweep_room(old(rooms)@[i as int], now));
            }
        }
        i += 1;
    }
    proof {
        assert(rooms@ =~= sweep_deadlines(old(rooms)@, now));
        assert forall|m: int| 0 <= m < rooms@.len() implies room_wf((#[trigger] rooms@[m]).room) by {
            assert(room_wf(old(rooms)@[m].room));
            if !(rooms@[m] == old(rooms)@[m]) {
                crate::room::lemma_wf_like(old(rooms)@[m].room, rooms@[m].room);
            }
        }
        assert(rooms_wf(rooms@));
    }
    if tick % 3 != 0 {
        return ;
    }
    let ghost mid = sweep_deadlines(old(rooms)@, now);
    let e = ServerCommand::RoomClosed;
    let rc = encode_event(&e);
    let mut j: usize = 0;
    let ghost k: int = 0;
    while j < rooms.rooms.len()
        invariant
            0 <= k <= mid.len(),
            j == kept_rooms(mid.subrange(0, k), now).len(),
            rooms@ =~= kept_rooms(mid.subrange(0, k), now) + mid.subrange(k, mid.len() as int),
            rooms_wf(mid),
            j <= rooms.rooms@.len(),
            rooms.departed@ =~= old(rooms).departed@ + evicted_rooms(mid.subrange(0, k), now),
            rc@ == enc_event(EventV::RoomClosed),
        decreases mid.len() - k,
    {
        proof {
            assert(mid.subrange(0, k + 1).drop_last() =~= mid.subrange(0, k));
            assert(mid.subrange(0, k + 1).last() == mid[k]);
            assert(rooms@[j as int] == mid[k]);
        }
        let last = rooms.rooms[j].room.last_interaction;
        let cutoff: u64 = if last > 0xFFFF_FFFF_FFFF_FFFFu64 - 3600 {
            0xFFFF_FFFF_FFFF_FFFFu64
        } else {
            last + 3600
        };
        if now > cutoff {
            proof {
                assert(idle_room(mid[k].room, now));
            }
            let ghost prev = rooms@;
            rooms.rooms[j].room.send_all(&rc);
            let ghost sent_entry = rooms@[j as int];
            proof {
                assert(rooms@ =~= prev.update(j as int, sent_entry));
            }
            rooms.rooms.remove(j);
            proof {
                k = k + 1;
                rooms.departed@ = rooms.departed@.push(sent_entry);
                assert(sent_entry =~~= (EntryV {
                    code: mid[k - 1].code,
                    room: crate::room::sent_all(mid[k - 1].room, enc_event(EventV::RoomClosed)),
                }));
                assert(evicted_rooms(mid.subrange(0, k), now) =~= evicted_rooms(
                    mid.subrange(0, k - 1),
                    now,
                ).push(sent_entry));
                assert(rooms.departed@ =~= old(rooms).departed@ + evicted_rooms(
                    mid.subrange(0, k),
                    now,
                ));
                assert(rooms@ =~= prev.update(j as int, sent_entry).remove(j as int));
                assert(prev.update(j as int, sent_entry).remove(j as int) =~= prev.remove(
                    j as int,
                ));
                assert(prev.remove(j as int) =~= kept_rooms(mid.subrange(0, k - 1), now)
                    + mid.subrange(k, mid.len() as int));
                assert(kept_rooms(mid.subrange(0, k), now) =~= kept_rooms(
                    mid.subrange(0, k - 1),
                    now,
                ));
                assert(rooms@ =~= kept_rooms(mid.subrange(0, k), now) + mid.subrange(
                    k,
                    mid.len() as int,
                ));
            }
        } else {
            proof {
                assert(!idle_room(mid[k].room, now));
            }
            j += 1;
            proof {
                k = k + 1;
                assert(evicted_rooms(mid.subrange(0, k), now) =~= evicted_rooms(
                    mid.subrange(0, k - 1),
                    now,
                ));
                assert(kept_rooms(mid.subrange(0, k), now) =~= kept_rooms(
                    mid.subrange(0, k - 1),
                    now,
                ).push(mid[k - 1]));
                assert(rooms@ =~= kept_rooms(mid.subrange(0, k), now) + mid.subrange(
                    k,
                    mid.len() as int,
                ));
            }
        }
    }
    proof {
        assert(mid.subrange(0, mid.len() as int) =~= mid);
        assert(rooms@ =~= kept_rooms(mid, now));
        lemma_kept_wf(mid, now);
    }
}

/// What one decoded moderator command does to the registry, relating the
/// state just after the clock refresh (`pre`) to the state after the
/// command (`post`) and to the returned result.
pub open spec fn master_dispatch_rel(
    pre: Seq<EntryV>,
    post: Seq<EntryV>,
    i: int,
    cmd: crate::command::MasterCmdV,
    now: u64,
    r: Result<(), RoomError>,
) -> bool {
    let e = pre[i];
    match cmd {
        crate::command::MasterCmdV::Start => r is Ok && post == pre.update(
            i,
            EntryV { code: e.code, room: crate::room::start_step(e.room, now) },
        ),
        crate::command::MasterCmdV::Finish => r is Ok && post == pre.update(
            i,
            EntryV { code: e.code, room: crate::room::finish_step(e.room) },
        ),
        crate::command::MasterCmdV::ExtraTime { seconds } => r is Ok && post == pre.update(
            i,
            EntryV { code: e.code, room: crate::room::extra_step(e.room, seconds) },
        ),
        crate::command::MasterCmdV::CloseRoom => r is Ok && post == pre.remove(i),
        crate::command::MasterCmdV::CreateGroup => match r {
            Ok(()) => exists|id: u32|
                #![auto]
                {
                    &&& 1 <= id
                    &&& !crate::room::group_exists(e.room.groups, id)
                    &&& (forall|g: u32|
                        1 <= g < id ==> crate::room::group_exists(e.room.groups, g))
                    &&& post == pre.update(
                        i,
                        EntryV { code: e.code, room: crate::room::create_group_step(e.room, id) },
                    )
                },
            Err(err) => err == RoomError::RoomFull && e.room.groups.len() >= 0xFFFF_FFFF && post
                == pre,
        },
        crate::command::MasterCmdV::SetGroupName { group, name } => match r {
            Ok(()) => {
                &&& group != 0
                &&& crate::room::group_exists(e.room.groups, group)
                &&& post == pre.update(
                    i,
                    EntryV {
                        code: e.code,
                        room: crate::room::set_group_name_step(
                            e.room,
                            crate::room::group_idx(e.room.groups, group),
                            name,
                        ),
                    },
                )
            },
            Err(err) => {
                &&& err == RoomError::GroupNotFound
                &&& (group == 0 || !crate::room::group_exists(e.room.groups, group))
                &&& post == pre
            },
        },
        crate::command::MasterCmdV::SetGroupColor { group, color } => match r {
            Ok(()) => {
                &&& group != 0
                &&& crate::room::group_exists(e.room.groups, group)
                &&& post == pre.update(
                    i,
                    EntryV {
                        code: e.code,
                        room: crate::room::set_group_color_step(
                            e.room,
                            crate::room::group_idx(e.room.groups, group),
                            color,
                        ),
                    },
                )
            },
            Err(err) => {
                &&& err == RoomError::GroupNotFound
                &&& (group == 0 || !crate::room::group_exists(e.room.groups, group))
                &&& post == pre
            },
        },
        crate::command::MasterCmdV::RemoveGroup { group } => match r {
            Ok(()) => {
                &&& group != 0
                &&& crate::room::group_exists(e.room.groups, group)
                &&& post == pre.update(
                    i,
                    EntryV {
                        code: e.code,
                        room: crate::room::remove_group_step(
                            e.room,
                            crate::room::group_idx(e.room.groups, group),
                        ),
                    },
                )
            },
            Err(err) => {
                &&& err == RoomError::GroupNotFound
                &&& (group == 0 || !crate::room::group_exists(e.room.groups, group))
                &&& post == pre
            },
        },
        crate::command::MasterCmdV::SetTime { seconds } => r is Ok && post == pre.update(
            i,
            EntryV { code: e.code, room: crate::room::set_time_step(e.room, seconds) },
        ),
        crate::command::MasterCmdV::SetQuestions { questions } => r is Ok && post == pre.update(
            i,
            EntryV { code: e.code, room: crate::room::set_questions_step(e.room, questions) },
        ),
        crate::command::MasterCmdV::Kick { sckid } => match r {
            Ok(()) => {
                &&& sckid >= 1
                &&& sckid - 1 < e.room.members.len()
                &&& post == pre.update(
                    i,
                    EntryV { code: e.code, room: crate::room::kick_step(e.room, sckid - 1) },
                )
            },
            Err(err) => {
                &&& err == RoomError::SlotOutOfRange
                &&& (sckid == 0 || sckid - 1 >= e.room.members.len())
                &&& post == pre
            },
        },
    }
}

/// What one decoded member command does to the registry, for a member
/// slot already checked to be on the list and not kicked.
pub open spec fn member_dispatch_rel(
    pre: Seq<EntryV>,
    post: Seq<EntryV>,
    i: int,
    sckid: u32,
    cmd: crate::command::MemberCmdV,
    r: Result<(), RoomError>,
) -> bool {
    let e = pre[i];
    match cmd {
        crate::command::MemberCmdV::SetName { name } => r is Ok && post == pre.update(
            i,
            EntryV { code: e.code, room: crate::room::set_name_step(e.room, sckid - 1, name) },
        ),
        crate::command::MemberCmdV::SetGroup { group } => match r {
            Ok(()) => {
                &&& crate::room::group_exists(e.room.groups, group)
                &&& post == pre.update(
                    i,
                    EntryV {
                        code: e.code,
                        room: crate::room::set_group_step(e.room, sckid - 1, group),
                    },
                )
            },
            Err(err) => {
                &&& err == RoomError::GroupNotFound
                &&& !crate::room::group_exists(e.room.groups, group)
                &&& post == pre
            },
        },
        crate::command::MemberCmdV::Answer { question, answer } => r is Ok && post == pre.update(
            i,
            EntryV {
                code: e.code,
                room: crate::room::answer_step(e.room, sckid - 1, question, answer),
            },
        ),
    }
}

/// Replacing one entry's room with a well-formed one keeps the registry
/// well-formed.
proof fn lemma_wf_replace_room(rs: Seq<EntryV>, i: int, room2: RoomV)
    requires
        rooms_wf(rs),
        0 <= i < rs.len(),
        room_wf(room2),
    ensures
        rooms_wf(rs.update(i, EntryV { code: rs[i].code, room: room2 })),
{
}

/// Removing one entry keeps the registry well-formed.
proof fn lemma_wf_remove(rs: Seq<EntryV>, i: int)
    requires
        rooms_wf(rs),
        0 <= i < rs.len(),
    ensures
        rooms_wf(rs.remove(i)),
{
    let post = rs.remove(i);
    assert forall|a: int, b: int|
        0 <= a < b < post.len() implies (#[trigger] post[a]).code != (#[trigger] post[b]).code by {
        let a0 = if a < i {
            a
        } else {
            a + 1
        };
        let b0 = if b < i {
            b
        } else {
            b + 1
        };
        assert(rs[a0].code != rs[b0].code);
    }
}

/// Routes one inbound frame to its room and role.
///
/// The frame is decoded for the role the slot carries: slot zero takes
/// moderator commands, member slots take member commands after the slot
/// is checked to be on the list and not kicked.  A missing room fails
/// with `RoomNotFound` and changes nothing; every other rejection —
/// a bad slot, a frame that does not decode, a command whose own
/// precondition fails — leaves the registry as it was apart from the
/// room's refreshed clock.  What each accepted command does is
/// [`master_dispatch_rel`] and [`member_dispatch_rel`] over the room
/// steps.
#[verifier::rlimit(100)]
pub fn handle_message(
    rooms: &mut Rooms,
    room_id: &str,
    sckid: u32,
    message: &[u8],
    now: u64,
) -> (r: Result<(), RoomError>)
    requires
        rooms_wf(old(rooms)@),
    ensures
        rooms_wf(final(rooms)@),
        ({
            let code = room_id.spec_bytes();
            if !has_code(old(rooms)@, code) {
                r == Err::<(), RoomError>(RoomError::RoomNotFound) && final(rooms)@ == old(
                    rooms,
                )@
            } else {
                let i = code_idx(old(rooms)@, code);
                let mid = old(rooms)@.update(i, touched(old(rooms)@[i], now));
                if sckid == 0 {
                    match crate::codec::spec_decode_master(message@) {
                        Err(e) => r == Err::<(), RoomError>(e) && final(rooms)@ == mid,
                        Ok(cmd) => master_dispatch_rel(mid, final(rooms)@, i, cmd, now, r),
                    }
                } else {
                    if sckid - 1 >= old(rooms)@[i].room.members.len() {
                        r == Err::<(), RoomError>(RoomError::SlotOutOfRange) && final(rooms)@
                            == mid
                    } else if old(rooms)@[i].room.members[sckid - 1].kicked {
                        r == Err::<(), RoomError>(RoomError::SlotKicked) && final(rooms)@ == mid
                    } else {
                        match crate::codec::spec_decode_member(message@) {
                            Err(e) => r == Err::<(), RoomError>(e) && final(rooms)@ == mid,
                            Ok(cmd) => member_dispatch_rel(mid, final(rooms)@, i, sckid, cmd, r),
                        }
                    }
                }
            }
        }),
        ({
            // A kick also hard-closes the kicked slot's fan-out: beyond the
            // histories the room value shows, its channel set ends empty.
            let code = room_id.spec_bytes();
            let dec = crate::codec::spec_decode_master(message@);
            (has_code(old(rooms)@, code) && sckid == 0 && r is Ok) ==> (dec matches Ok(
                crate::command::MasterCmdV::Kick { sckid: target },
            ) ==> final(rooms).rooms@[code_idx(old(rooms)@, code)].room.members@[target
                - 1].conns.count() == 0)
        }),
        ({
            // A room leaves the registry only through a close-room command,
            // and goes with the room-closed notice last in every audience's
            // history.
            let code = room_id.spec_bytes();
            if has_code(old(rooms)@, code) && sckid == 0 && crate::codec::spec_decode_master(
                message@,
            ) == Ok::<_, RoomError>(crate::command::MasterCmdV::CloseRoom) {
                final(rooms).departed@ == old(rooms).departed@.push(
                    EntryV {
                        code: old(rooms)@[code_idx(old(rooms)@, code)].code,
                        room: crate::room::sent_all(
                            touched(old(rooms)@[code_idx(old(rooms)@, code)], now).room,
                            enc_event(EventV::RoomClosed),
                        ),
                    },
                )
            } else {
                final(rooms).departed@ == old(rooms).departed@
            }
        }),
{
    let i = match find_room(rooms, room_id.as_bytes()) {
        Some(i) => i,
        None => {
            return Err(RoomError::RoomNotFound);
        },
    };
    proof {
        lemma_code_idx(rooms@, room_id.spec_bytes(), i as int);
    }
    rooms.rooms[i].room.interacted(now);
    let ghost mid = old(rooms)@.update(i as int, touched(old(rooms)@[i as int], now));
    proof {
        assert(rooms@ =~= mid);
        lemma_wf_update_touched(old(rooms)@, i as int, now);
        assert(room_wf(rooms@[i as int].room));
    }
    if sckid == 0 {
        let cmd = match crate::codec::decode_master(message) {
            Err(e) => {
                return Err(e);
            },
            Ok(c) => c,
        };
        match cmd {
            crate::command::MasterCommand::Start => {
                rooms.rooms[i].room.cmd_start(now);
                proof {
                    assert(rooms@ =~~= mid.update(
                        i as int,
                        EntryV {
                            code: mid[i as int].code,
                            room: crate::room::start_step(mid[i as int].room, now),
                        },
                    ));
                    crate::room::lemma_start_wf(mid[i as int].room, now);
                    lemma_wf_replace_room(mid, i as int, rooms@[i as int].room);
                }
                Ok(())
            },
            crate::command::MasterCommand::Finish => {
                rooms.rooms[i].room.cmd_finish();
                proof {
                    assert(rooms@ =~~= mid.update(
                        i as int,
                        EntryV {
                            code: mid[i as int].code,
                            room: crate::room::finish_step(mid[i as int].room),
                        },
                    ));
                    crate::room::lemma_wf_like(mid[i as int].room, rooms@[i as int].room);
                    lemma_wf_replace_room(mid, i as int, rooms@[i as int].room);
                }
                Ok(())
            },
            crate::command::MasterCommand::ExtraTime { seconds } => {
                rooms.rooms[i].room.cmd_extra_time(seconds);
                proof {
                    assert(rooms@ =~~= mid.update(
                        i as int,
                        EntryV {
                            code: mid[i as int].code,
                            room: crate::room::extra_step(mid[i as int].room, seconds),
                        },
                    ));
                    crate::room::lemma_wf_like(mid[i as int].room, rooms@[i as int].room);
                    lemma_wf_replace_room(mid, i as int, rooms@[i as int].room);
                }
                Ok(())
            },
            crate::command::MasterCommand::CloseRoom => {
                let e = ServerCommand::RoomClosed;
                let msg = encode_event(&e);
                let ghost before = rooms@;
                rooms.rooms[i].room.send_all(&msg);
                proof {
                    assert(rooms@ =~= before.update(i as int, rooms@[i as int]));
                }
                let ghost gone = rooms@[i as int];
                rooms.rooms.remove(i);
                proof {
                    assert(rooms@ =~= before.update(i as int, before[i as int]).remove(i as int));
                    assert(rooms@ =~= mid.remove(i as int));
                    lemma_wf_remove(mid, i as int);
                    rooms.departed@ = rooms.departed@.push(gone);
                    assert(gone =~~= (EntryV {
                        code: mid[i as int].code,
                        room: crate::room::sent_all(mid[i as int].room, msg@),
                    }));
                }
                Ok(())
            },
            crate::command::MasterCommand::CreateGroup => {
                let created = rooms.rooms[i].room.cmd_create_group();
                match created {
                    Ok(id) => {
                        proof {
                            assert(rooms@ =~~= mid.update(
                                i as int,
                                EntryV {
                                    code: mid[i as int].code,
                                    room: crate::room::create_group_step(mid[i as int].room, id),
                                },
                            ));
                            lemma_wf_replace_room(mid, i as int, rooms@[i as int].room);
                        }
                        Ok(())
                    },
                    Err(e2) => {
                        proof {
                            assert(rooms@ =~~= mid);
                        }
                        Err(e2)
                    },
                }
            },
            crate::command::MasterCommand::SetGroupName { group, name } => {
                let done = rooms.rooms[i].room.cmd_set_group_name(group, name);
                proof {
                    if done is Ok {
                        assert(rooms@ =~~= mid.update(
                            i as int,
                            EntryV {
                                code: mid[i as int].code,
                                room: crate::room::set_group_name_step(
                                    mid[i as int].room,
                                    crate::room::group_idx(mid[i as int].room.groups, group),
                                    name@,
                                ),
                            },
                        ));
                        lemma_wf_replace_room(mid, i as int, rooms@[i as int].room);
                    } else {
                        assert(rooms@ =~~= mid);
                    }
                }
                done
            },
            crate::command::MasterCommand::SetGroupColor { group, color } => {
                let done = rooms.rooms[i].room.cmd_set_group_color(group, color);
                proof {
                    if done is Ok {
                        assert(rooms@ =~~= mid.update(
                            i as int,
                            EntryV {
                                code: mid[i as int].code,
                                room: crate::room::set_group_color_step(
                                    mid[i as int].room,
                                    crate::room::group_idx(mid[i as int].room.groups, group),
                                    color@,
                                ),
                            },
                        ));
                        lemma_wf_replace_room(mid, i as int, rooms@[i as int].room);
                    } else {
                        assert(rooms@ =~~= mid);
                    }
                }
                done
            },
            crate::command::MasterCommand::RemoveGroup { group } => {
                let done = rooms.rooms[i].room.cmd_remove_group(group);
                proof {
                    if done is Ok {
                        assert(rooms@ =~~= mid.update(
                            i as int,
                            EntryV {
                                code: mid[i as int].code,
                                room: crate::room::remove_group_step(
                                    mid[i as int].room,
                                    crate::room::group_idx(mid[i as int].room.groups, group),
                                ),
                            },
                        ));
                        lemma_wf_replace_room(mid, i as int, rooms@[i as int].room);
                    } else {
                        assert(rooms@ =~~= mid);
                    }
                }
                done
            },
            crate::command::MasterCommand::SetTime { seconds } => {
                rooms.rooms[i].room.cmd_set_time(seconds);
                proof {
                    assert(rooms@ =~~= mid.update(
                        i as int,
                        EntryV {
                            code: mid[i as int].code,
                            room: crate::room::set_time_step(mid[i as int].room, seconds),
                        },
                    ));
                    crate::room::lemma_wf_like(mid[i as int].room, rooms@[i as int].room);
                    lemma_wf_replace_room(mid, i as int, rooms@[i as int].room);
                }
                Ok(())
            },
            crate::command::MasterCommand::SetQuestions { questions } => {
                rooms.rooms[i].room.cmd_set_questions(questions);
                proof {
                    assert(rooms@ =~~= mid.update(
                        i as int,
                        EntryV {
                            code: mid[i as int].code,
                            room: crate::room::set_questions_step(
                                mid[i as int].room,
                                questions@,
                            ),
                        },
                    ));
                    crate::room::lemma_wf_like(mid[i as int].room, rooms@[i as int].room);
                    lemma_wf_replace_room(mid, i as int, rooms@[i as int].room);
                }
                Ok(())
            },
            crate::command::MasterCommand::Kick { sckid: target } => {
                let done = rooms.rooms[i].room.cmd_kick(target);
                proof {
                    if done is Ok {
                        assert(rooms.rooms@[i as int].room.members@[target - 1].conns.count()
                            == 0);
                        assert(rooms@ =~~= mid.update(
                            i as int,
                            EntryV {
                                code: mid[i as int].code,
                                room: crate::room::kick_step(mid[i as int].room, target - 1),
                            },
                        ));
                        lemma_wf_replace_room(mid, i as int, rooms@[i as int].room);
                    } else {
                        assert(rooms@ =~~= mid);
                    }
                }
                done
            },
        }
    } else {
        let idx = (sckid - 1) as usize;
        if idx >= rooms.rooms[i].room.members.len() {
            return Err(RoomError::SlotOutOfRange);
        }
        if rooms.rooms[i].room.members[idx].kicked {
            return Err(RoomError::SlotKicked);
        }
        let cmd = match crate::codec::decode_member(message) {
            Err(e) => {
                return Err(e);
            },
            Ok(c) => c,
        };
        match cmd {
            crate::command::MemberCommand::SetName { name } => {
                let done = rooms.rooms[i].room.member_set_name(sckid, name);
                proof {
                    assert(done is Ok);
                    assert(rooms@ =~~= mid.update(
                        i as int,
                        EntryV {
                            code: mid[i as int].code,
                            room: crate::room::set_name_step(
                                mid[i as int].room,
                                sckid - 1,
                                name@,
                            ),
                        },
                    ));
                    lemma_wf_replace_room(mid, i as int, rooms@[i as int].room);
                }
                done
            },
            crate::command::MemberCommand::SetGroup { group } => {
                let done = rooms.rooms[i].room.member_set_group(sckid, group);
                proof {
                    if done is Ok {
                        assert(rooms@ =~~= mid.update(
                            i as int,
                            EntryV {
                                code: mid[i as int].code,
                                room: crate::room::set_group_step(
                                    mid[i as int].room,
                                    sckid - 1,
                                    group,
                                ),
                            },
                        ));
                        lemma_wf_replace_room(mid, i as int, rooms@[i as int].room);
                    } else {
                        assert(rooms@ =~~= mid);
                    }
                }
                done
            },
            crate::command::MemberCommand::Answer { question, answer } => {
                let done = rooms.rooms[i].room.member_answer(sckid, question, answer);
                proof {
                    assert(done is Ok);
                    assert(rooms@ =~~= mid.update(
                        i as int,
                        EntryV {
                            code: mid[i as int].code,
                            room: crate::room::answer_step(
                                mid[i as int].room,
                                sckid - 1,
                                question,
                                answer,
                            ),
                        },
                    ));
                    lemma_wf_replace_room(mid, i as int, rooms@[i as int].room);
                }
                done
            },
        }
    }
}

/// Online-count transitions broadcast only on the edges: a member coming
/// online (zero to one) or going offline (one to zero) extends every
/// audience's history by exactly the member event and the roster; any
/// other transition sends nothing at all.
pub proof fn lemma_online_broadcast_edges_only(pre: RoomV, idx: int)
    requires
        0 <= idx < pre.members.len(),
    ensures
        pre.members[idx].online >= 1 ==> ({
            let post = bump_online_step(pre, idx);
            &&& post.sent == pre.sent
            &&& forall|m: int|
                0 <= m < pre.members.len() ==> (#[trigger] post.members[m]).sent
                    == pre.members[m].sent
        }),
        (pre.members[idx].online != 1 || pre.members[idx].kicked) ==> ({
            let post = drop_online_step(pre, idx);
            &&& post.sent == pre.sent
            &&& forall|m: int|
                0 <= m < pre.members.len() ==> (#[trigger] post.members[m]).sent
                    == pre.members[m].sent
        }),
        (pre.members[idx].online == 0 && !pre.members[idx].kicked) ==> ({
            let post = bump_online_step(pre, idx);
            let m1 = MemberSt { online: 1u64, ..pre.members[idx] };
            let ms = pre.members.update(idx, m1);
            let mu = enc_event(EventV::MemberUpdated { member: m1.wire() });
            let mc = enc_event(EventV::MembersChanged { members: roster_of(ms) });
            post.sent == pre.sent.push(mu).push(mc)
        }),
        (pre.members[idx].online == 1 && !pre.members[idx].kicked) ==> ({
            let post = drop_online_step(pre, idx);
            let m1 = MemberSt { online: 0u64, ..pre.members[idx] };
            let ms = pre.members.update(idx, m1);
            let mr = enc_event(EventV::MemberRemoved { sckid: pre.members[idx].sckid });
            let mc = enc_event(EventV::MembersChanged { members: roster_of(ms) });
            post.sent == pre.sent.push(mr).push(mc)
        }),
{
}

/// The deadline sweep ends an activity exactly once: after the sweep has
/// moved a room to the ended phase, any later sweep, at any time, leaves
/// that room — phase, cached message, and every audience history —
/// untouched.
pub proof fn lemma_sweep_exactly_once(e: EntryV, now: u64, later: u64)
    requires
        e.room.game is Started,
        expired(e.room, now),
    ensures
        sweep_room(sweep_room(e, now), later) == sweep_room(e, now),
{
}

} // verus!
