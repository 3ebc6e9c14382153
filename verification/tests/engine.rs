use extensao::command::{MasterCommand, ServerCommand};
use extensao::room::Game;
use extensao::state::{
    check_exists, connect_room, create_room, decrement_online, handle_message, increment_online,
    join_room, periodic_routine, RoomStream, Rooms,
};
use extensao::RoomError;
use tokio::sync::mpsc::error::TryRecvError;

fn is_consonant(b: u8) -> bool {
    (65..=90).contains(&b) && !matches!(b, 65 | 69 | 73 | 79 | 85)
}

fn is_vowel(b: u8) -> bool {
    matches!(b, 65 | 69 | 73 | 79 | 85)
}

fn recv(stream: &mut RoomStream) -> String {
    String::from_utf8(stream.rx.try_recv().expect("a queued message")).expect("utf8")
}

fn no_msg(stream: &mut RoomStream) {
    assert!(matches!(stream.rx.try_recv(), Err(TryRecvError::Empty)));
}

fn drain(stream: &mut RoomStream) {
    while stream.rx.try_recv().is_ok() {}
}

#[test]
fn created_codes_have_consonant_vowel_consonant_shape() {
    let mut rooms = Rooms::new();
    for _ in 0..50 {
        let code = create_room(&mut rooms, 0).expect("an empty registry has room");
        let b = code.as_bytes();
        assert_eq!(b.len(), 3);
        assert!(is_consonant(b[0]));
        assert!(is_vowel(b[1]));
        assert!(is_consonant(b[2]));
    }
}

#[test]
fn create_room_fails_only_when_code_space_is_exhausted() {
    let mut rooms = Rooms::new();
    // 21 consonants times 5 vowels times 21 consonants distinct codes exist.
    let all = 21 * 5 * 21;
    let mut made = 0;
    for _ in 0..1_000_000 {
        if made == all {
            break;
        }
        // A failure before the space is full is possible (thirty colliding
        // draws) and is not fatal: the registry is unchanged.
        if create_room(&mut rooms, 0).is_ok() {
            made += 1;
        }
        assert_eq!(rooms.rooms.len(), made);
    }
    assert_eq!(made, all);
    assert_eq!(create_room(&mut rooms, 0), Err(RoomError::RoomFull));
    assert_eq!(rooms.rooms.len(), all);
}

#[test]
fn join_slots_rise_from_one_and_joining_a_started_room_fails() {
    let mut rooms = Rooms::new();
    let code = create_room(&mut rooms, 0).unwrap();
    assert_eq!(join_room(&mut rooms, &code, 1), Ok(1));
    assert_eq!(join_room(&mut rooms, &code, 2), Ok(2));
    assert_eq!(join_room(&mut rooms, &code, 3), Ok(3));
    handle_message(&mut rooms, &code, 0, b"{\"cmd\":\"Start\"}", 10).unwrap();
    assert_eq!(join_room(&mut rooms, &code, 11), Err(RoomError::GameAlreadyStarted));
    assert_eq!(rooms.rooms[0].room.members.len(), 3);
    // An ended activity still refuses joins: only an idle room admits them.
    handle_message(&mut rooms, &code, 0, b"{\"cmd\":\"Finish\"}", 12).unwrap();
    assert_eq!(join_room(&mut rooms, &code, 13), Err(RoomError::GameAlreadyStarted));
    assert_eq!(rooms.rooms[0].room.members.len(), 3);
}

#[test]
fn join_room_requires_an_existing_room() {
    let mut rooms = Rooms::new();
    assert_eq!(join_room(&mut rooms, "BAK", 0), Err(RoomError::RoomNotFound));
}

#[test]
fn check_exists_accepts_the_moderator_and_live_members_only() {
    let mut rooms = Rooms::new();
    let code = create_room(&mut rooms, 0).unwrap();
    assert!(check_exists(&rooms, &code, 0));
    assert!(!check_exists(&rooms, &code, 1));
    join_room(&mut rooms, &code, 1).unwrap();
    assert!(check_exists(&rooms, &code, 1));
    assert!(!check_exists(&rooms, &code, 2));
    assert!(!check_exists(&rooms, "QUQ", 0));
    handle_message(&mut rooms, &code, 0, b"{\"cmd\":\"Kick\",\"sckid\":1}", 2).unwrap();
    assert!(!check_exists(&rooms, &code, 1));
}

#[test]
fn connect_replays_the_snapshot_in_order() {
    let mut rooms = Rooms::new();
    let code = create_room(&mut rooms, 0).unwrap();
    join_room(&mut rooms, &code, 1).unwrap();
    let mut master = connect_room(&mut rooms, &code, 0, 2).unwrap();
    assert_eq!(
        recv(&mut master),
        "{\"cmd\":\"RoomChanged\",\"game_time\":300,\"questions\":\"default\"}"
    );
    assert_eq!(
        recv(&mut master),
        "{\"cmd\":\"GroupUpdated\",\"group\":0,\"name\":\"Grupo\",\"color\":\"68,68,170\"}"
    );
    // The joined member is offline, so the roster is empty and no
    // member-updated event follows; the phase is idle, so nothing more.
    assert_eq!(recv(&mut master), "{\"cmd\":\"MembersChanged\",\"members\":[]}");
    no_msg(&mut master);
    let mut member = connect_room(&mut rooms, &code, 1, 3).unwrap();
    assert_eq!(
        recv(&mut member),
        "{\"cmd\":\"RoomChanged\",\"game_time\":300,\"questions\":\"default\"}"
    );
    assert_eq!(
        recv(&mut member),
        "{\"cmd\":\"GroupUpdated\",\"group\":0,\"name\":\"Grupo\",\"color\":\"68,68,170\"}"
    );
    assert_eq!(recv(&mut member), "{\"cmd\":\"MembersChanged\",\"members\":[]}");
    no_msg(&mut member);
}

#[test]
fn connect_validates_room_and_slot() {
    let mut rooms = Rooms::new();
    let code = create_room(&mut rooms, 0).unwrap();
    assert!(matches!(connect_room(&mut rooms, "XOX", 0, 1), Err(RoomError::RoomNotFound)));
    assert!(matches!(connect_room(&mut rooms, &code, 1, 1), Err(RoomError::SlotOutOfRange)));
    join_room(&mut rooms, &code, 2).unwrap();
    assert!(connect_room(&mut rooms, &code, 1, 3).is_ok());
    handle_message(&mut rooms, &code, 0, b"{\"cmd\":\"Kick\",\"sckid\":1}", 4).unwrap();
    assert!(matches!(connect_room(&mut rooms, &code, 1, 5), Err(RoomError::SlotKicked)));
}

#[test]
fn online_count_broadcasts_only_on_edges() {
    let mut rooms = Rooms::new();
    let code = create_room(&mut rooms, 0).unwrap();
    join_room(&mut rooms, &code, 1).unwrap();
    let mut master = connect_room(&mut rooms, &code, 0, 2).unwrap();
    drain(&mut master);
    increment_online(&mut rooms, &code, 1, 3).unwrap();
    assert_eq!(
        recv(&mut master),
        "{\"cmd\":\"MemberUpdated\",\"member\":{\"sckid\":1,\"name\":\"Aluno #1\",\"group\":0,\"answers\":0}}"
    );
    assert_eq!(
        recv(&mut master),
        "{\"cmd\":\"MembersChanged\",\"members\":[{\"sckid\":1,\"name\":\"Aluno #1\",\"group\":0,\"answers\":0}]}"
    );
    no_msg(&mut master);
    // A second connection of the same member broadcasts nothing.
    increment_online(&mut rooms, &code, 1, 4).unwrap();
    no_msg(&mut master);
    // Falling from two to one broadcasts nothing either.
    decrement_online(&mut rooms, &code, 1, 5).unwrap();
    no_msg(&mut master);
    // One to zero broadcasts the removal and the roster.
    decrement_online(&mut rooms, &code, 1, 6).unwrap();
    assert_eq!(recv(&mut master), "{\"cmd\":\"MemberRemoved\",\"sckid\":1}");
    assert_eq!(recv(&mut master), "{\"cmd\":\"MembersChanged\",\"members\":[]}");
    no_msg(&mut master);
    // Zero stays zero silently.
    decrement_online(&mut rooms, &code, 1, 7).unwrap();
    no_msg(&mut master);
    // The moderator's own connections are not counted at all.
    increment_online(&mut rooms, &code, 0, 8).unwrap();
    no_msg(&mut master);
}

#[test]
fn answer_upsert_keeps_one_entry_per_question() {
    let mut rooms = Rooms::new();
    let code = create_room(&mut rooms, 0).unwrap();
    join_room(&mut rooms, &code, 1).unwrap();
    handle_message(&mut rooms, &code, 1, b"{\"cmd\":\"Answer\",\"question\":3,\"answer\":1}", 2)
        .unwrap();
    handle_message(&mut rooms, &code, 1, b"{\"cmd\":\"Answer\",\"question\":3,\"answer\":2}", 3)
        .unwrap();
    let answers = &rooms.rooms[0].room.members[0].answers;
    assert_eq!(answers.len(), 1);
    assert_eq!(answers[0].question, 3);
    assert_eq!(answers[0].answer, 2);
    handle_message(&mut rooms, &code, 1, b"{\"cmd\":\"Answer\",\"question\":5,\"answer\":0}", 4)
        .unwrap();
    handle_message(&mut rooms, &code, 1, b"{\"cmd\":\"Answer\",\"question\":1,\"answer\":4}", 5)
        .unwrap();
    // The answers stand in ascending question order however they arrive.
    let answers = &rooms.rooms[0].room.members[0].answers;
    assert_eq!(answers.len(), 3);
    assert_eq!((answers[0].question, answers[0].answer), (1, 4));
    assert_eq!((answers[1].question, answers[1].answer), (3, 2));
    assert_eq!((answers[2].question, answers[2].answer), (5, 0));
}

#[test]
fn the_aggregate_lists_answers_in_ascending_question_order() {
    let mut rooms = Rooms::new();
    let code = create_room(&mut rooms, 0).unwrap();
    join_room(&mut rooms, &code, 1).unwrap();
    increment_online(&mut rooms, &code, 1, 2).unwrap();
    let mut master = connect_room(&mut rooms, &code, 0, 3).unwrap();
    drain(&mut master);
    handle_message(&mut rooms, &code, 1, b"{\"cmd\":\"Answer\",\"question\":5,\"answer\":1}", 4)
        .unwrap();
    handle_message(&mut rooms, &code, 1, b"{\"cmd\":\"Answer\",\"question\":3,\"answer\":2}", 5)
        .unwrap();
    drain(&mut master);
    handle_message(&mut rooms, &code, 1, b"{\"cmd\":\"Answer\",\"question\":4,\"answer\":0}", 6)
        .unwrap();
    // MemberUpdated, then AnswerUpdated, then the aggregate with the
    // questions ascending: 3, 4, 5.
    recv(&mut master);
    recv(&mut master);
    assert_eq!(
        recv(&mut master),
        "{\"cmd\":\"AnswersChanged\",\"answers\":[{\"member\":{\"sckid\":1,\"name\":\"Aluno #1\",\"group\":0,\"answers\":3},\"answers\":[{\"question\":3,\"answer\":2},{\"question\":4,\"answer\":0},{\"question\":5,\"answer\":1}]}]}"
    );
}

#[test]
fn scenario_start_answer_and_deadline_sweep() {
    let mut rooms = Rooms::new();
    let code = create_room(&mut rooms, 100).unwrap();
    join_room(&mut rooms, &code, 101).unwrap();
    let mut master = connect_room(&mut rooms, &code, 0, 102).unwrap();
    let mut member = connect_room(&mut rooms, &code, 1, 103).unwrap();
    increment_online(&mut rooms, &code, 1, 104).unwrap();
    drain(&mut master);
    drain(&mut member);
    handle_message(&mut rooms, &code, 0, b"{\"cmd\":\"Start\"}", 200).unwrap();
    // The moderator first replays each present member, then the start.
    assert_eq!(
        recv(&mut master),
        "{\"cmd\":\"MemberUpdated\",\"member\":{\"sckid\":1,\"name\":\"Aluno #1\",\"group\":0,\"answers\":0}}"
    );
    assert_eq!(recv(&mut master), "{\"cmd\":\"Started\",\"remaining\":300}");
    no_msg(&mut master);
    assert_eq!(recv(&mut member), "{\"cmd\":\"Started\",\"remaining\":300}");
    no_msg(&mut member);
    handle_message(&mut rooms, &code, 1, b"{\"cmd\":\"Answer\",\"question\":1,\"answer\":2}", 201)
        .unwrap();
    // Only the moderator hears about answers.
    assert_eq!(
        recv(&mut master),
        "{\"cmd\":\"MemberUpdated\",\"member\":{\"sckid\":1,\"name\":\"Aluno #1\",\"group\":0,\"answers\":1}}"
    );
    assert_eq!(
        recv(&mut master),
        "{\"cmd\":\"AnswerUpdated\",\"answer\":{\"question\":1,\"answer\":2},\"member\":{\"sckid\":1,\"name\":\"Aluno #1\",\"group\":0,\"answers\":1}}"
    );
    assert_eq!(
        recv(&mut master),
        "{\"cmd\":\"AnswersChanged\",\"answers\":[{\"member\":{\"sckid\":1,\"name\":\"Aluno #1\",\"group\":0,\"answers\":1},\"answers\":[{\"question\":1,\"answer\":2}]}]}"
    );
    no_msg(&mut master);
    no_msg(&mut member);
    // Before the deadline the sweeper does nothing.
    periodic_routine(&mut rooms, 1, 400);
    no_msg(&mut master);
    assert!(matches!(rooms.rooms[0].room.game, Game::Started { .. }));
    // Just past the deadline it ends the activity and broadcasts the
    // frozen aggregate to everyone.
    let finished = "{\"cmd\":\"Finished\",\"answers\":[{\"member\":{\"sckid\":1,\"name\":\"Aluno #1\",\"group\":0,\"answers\":1},\"answers\":[{\"question\":1,\"answer\":2}]}]}";
    periodic_routine(&mut rooms, 2, 501);
    assert_eq!(recv(&mut master), finished);
    assert_eq!(recv(&mut member), finished);
    assert!(matches!(rooms.rooms[0].room.game, Game::Ended { .. }));
    // Further ticks past the deadline do nothing: the transition fires
    // exactly once.
    periodic_routine(&mut rooms, 3, 502);
    periodic_routine(&mut rooms, 4, 900);
    no_msg(&mut master);
    no_msg(&mut member);
    // A late connection replays the identical finished message.
    let mut late = connect_room(&mut rooms, &code, 0, 503).unwrap();
    let mut last = String::new();
    loop {
        match late.rx.try_recv() {
            Ok(m) => last = String::from_utf8(m).unwrap(),
            Err(_) => break,
        }
    }
    assert_eq!(last, finished);
}

#[test]
fn scenario_kick_closes_the_member_and_updates_the_roster() {
    let mut rooms = Rooms::new();
    let code = create_room(&mut rooms, 0).unwrap();
    join_room(&mut rooms, &code, 1).unwrap();
    let mut master = connect_room(&mut rooms, &code, 0, 2).unwrap();
    let mut member = connect_room(&mut rooms, &code, 1, 3).unwrap();
    increment_online(&mut rooms, &code, 1, 4).unwrap();
    drain(&mut master);
    drain(&mut member);
    handle_message(&mut rooms, &code, 0, b"{\"cmd\":\"Kick\",\"sckid\":1}", 5).unwrap();
    // The kicked member alone hears the room close, then its channel is
    // dropped for good.
    assert_eq!(recv(&mut member), "{\"cmd\":\"RoomClosed\"}");
    assert!(matches!(member.rx.try_recv(), Err(TryRecvError::Disconnected)));
    // Everyone else gets the removal and the emptied roster.
    assert_eq!(recv(&mut master), "{\"cmd\":\"MemberRemoved\",\"sckid\":1}");
    assert_eq!(recv(&mut master), "{\"cmd\":\"MembersChanged\",\"members\":[]}");
    no_msg(&mut master);
    // The slot is terminally dead: no reconnect, no commands.
    assert!(matches!(connect_room(&mut rooms, &code, 1, 6), Err(RoomError::SlotKicked)));
    assert_eq!(
        handle_message(&mut rooms, &code, 1, b"{\"cmd\":\"SetName\",\"name\":\"x\"}", 7),
        Err(RoomError::SlotKicked)
    );
    // Kicking slot zero or an absent slot is refused.
    assert_eq!(
        handle_message(&mut rooms, &code, 0, b"{\"cmd\":\"Kick\",\"sckid\":0}", 8),
        Err(RoomError::SlotOutOfRange)
    );
    assert_eq!(
        handle_message(&mut rooms, &code, 0, b"{\"cmd\":\"Kick\",\"sckid\":9}", 9),
        Err(RoomError::SlotOutOfRange)
    );
}

#[test]
fn groups_allocate_smallest_unused_id_and_group_zero_is_permanent() {
    let mut rooms = Rooms::new();
    let code = create_room(&mut rooms, 0).unwrap();
    join_room(&mut rooms, &code, 1).unwrap();
    let mut master = connect_room(&mut rooms, &code, 0, 2).unwrap();
    drain(&mut master);
    handle_message(&mut rooms, &code, 0, b"{\"cmd\":\"CreateGroup\"}", 3).unwrap();
    assert_eq!(
        recv(&mut master),
        "{\"cmd\":\"GroupUpdated\",\"group\":1,\"name\":\"Grupo\",\"color\":\"68,68,170\"}"
    );
    assert_eq!(recv(&mut master), "{\"cmd\":\"MembersChanged\",\"members\":[]}");
    handle_message(&mut rooms, &code, 0, b"{\"cmd\":\"CreateGroup\"}", 4).unwrap();
    drain(&mut master);
    assert_eq!(rooms.rooms[0].room.groups.len(), 3);
    assert_eq!(rooms.rooms[0].room.groups[2].id, 2);
    // A member moves into group 1; removing group 1 sends it back to the
    // default group.
    handle_message(&mut rooms, &code, 1, b"{\"cmd\":\"SetGroup\",\"group\":1}", 5).unwrap();
    assert_eq!(rooms.rooms[0].room.members[0].group, 1);
    handle_message(&mut rooms, &code, 0, b"{\"cmd\":\"RemoveGroup\",\"group\":1}", 6).unwrap();
    assert_eq!(rooms.rooms[0].room.members[0].group, 0);
    // The freed id is the smallest unused again.
    handle_message(&mut rooms, &code, 0, b"{\"cmd\":\"CreateGroup\"}", 7).unwrap();
    assert_eq!(rooms.rooms[0].room.groups[1].id, 1);
    // The default group can neither be removed nor renamed.
    assert_eq!(
        handle_message(&mut rooms, &code, 0, b"{\"cmd\":\"RemoveGroup\",\"group\":0}", 8),
        Err(RoomError::GroupNotFound)
    );
    assert_eq!(
        handle_message(
            &mut rooms,
            &code,
            0,
            b"{\"cmd\":\"SetGroupName\",\"group\":0,\"name\":\"x\"}",
            9
        ),
        Err(RoomError::GroupNotFound)
    );
    assert_eq!(rooms.rooms[0].room.groups[0].id, 0);
    // Moving to an unknown group is refused.
    assert_eq!(
        handle_message(&mut rooms, &code, 1, b"{\"cmd\":\"SetGroup\",\"group\":9}", 10),
        Err(RoomError::GroupNotFound)
    );
}

#[test]
fn group_fields_update_and_broadcast() {
    let mut rooms = Rooms::new();
    let code = create_room(&mut rooms, 0).unwrap();
    handle_message(&mut rooms, &code, 0, b"{\"cmd\":\"CreateGroup\"}", 1).unwrap();
    let mut master = connect_room(&mut rooms, &code, 0, 2).unwrap();
    drain(&mut master);
    handle_message(
        &mut rooms,
        &code,
        0,
        b"{\"cmd\":\"SetGroupName\",\"group\":1,\"name\":\"Time Azul\"}",
        3,
    )
    .unwrap();
    assert_eq!(
        recv(&mut master),
        "{\"cmd\":\"GroupUpdated\",\"group\":1,\"name\":\"Time Azul\",\"color\":\"68,68,170\"}"
    );
    assert_eq!(recv(&mut master), "{\"cmd\":\"MembersChanged\",\"members\":[]}");
    handle_message(
        &mut rooms,
        &code,
        0,
        b"{\"cmd\":\"SetGroupColor\",\"group\":1,\"color\":\"1,2,3\"}",
        4,
    )
    .unwrap();
    assert_eq!(
        recv(&mut master),
        "{\"cmd\":\"GroupUpdated\",\"group\":1,\"name\":\"Time Azul\",\"color\":\"1,2,3\"}"
    );
}

#[test]
fn configuration_changes_broadcast_only_on_change() {
    let mut rooms = Rooms::new();
    let code = create_room(&mut rooms, 0).unwrap();
    let mut master = connect_room(&mut rooms, &code, 0, 1).unwrap();
    drain(&mut master);
    handle_message(&mut rooms, &code, 0, b"{\"cmd\":\"SetTime\",\"seconds\":60}", 2).unwrap();
    assert_eq!(
        recv(&mut master),
        "{\"cmd\":\"RoomChanged\",\"game_time\":60,\"questions\":\"default\"}"
    );
    // The same value again is a no-op and broadcasts nothing.
    handle_message(&mut rooms, &code, 0, b"{\"cmd\":\"SetTime\",\"seconds\":60}", 3).unwrap();
    no_msg(&mut master);
    handle_message(&mut rooms, &code, 0, b"{\"cmd\":\"SetQuestions\",\"questions\":\"pool2\"}", 4)
        .unwrap();
    assert_eq!(
        recv(&mut master),
        "{\"cmd\":\"RoomChanged\",\"game_time\":60,\"questions\":\"pool2\"}"
    );
    handle_message(&mut rooms, &code, 0, b"{\"cmd\":\"SetQuestions\",\"questions\":\"pool2\"}", 5)
        .unwrap();
    no_msg(&mut master);
}

#[test]
fn extra_time_extends_the_deadline() {
    let mut rooms = Rooms::new();
    let code = create_room(&mut rooms, 0).unwrap();
    handle_message(&mut rooms, &code, 0, b"{\"cmd\":\"SetTime\",\"seconds\":5}", 1).unwrap();
    handle_message(&mut rooms, &code, 0, b"{\"cmd\":\"Start\"}", 100).unwrap();
    let mut master = connect_room(&mut rooms, &code, 0, 100).unwrap();
    drain(&mut master);
    handle_message(&mut rooms, &code, 0, b"{\"cmd\":\"ExtraTime\",\"seconds\":10}", 101).unwrap();
    assert_eq!(recv(&mut master), "{\"cmd\":\"ExtraTime\",\"seconds\":10}");
    // Deadline is start + time + extra = 115: not yet expired at 115.
    periodic_routine(&mut rooms, 1, 115);
    assert!(matches!(rooms.rooms[0].room.game, Game::Started { .. }));
    periodic_routine(&mut rooms, 2, 116);
    assert!(matches!(rooms.rooms[0].room.game, Game::Ended { .. }));
    // Extra time on an idle or ended room is a silent no-op.
    drain(&mut master);
    handle_message(&mut rooms, &code, 0, b"{\"cmd\":\"ExtraTime\",\"seconds\":10}", 117).unwrap();
    no_msg(&mut master);
}

#[test]
fn restart_clears_answers_and_replays_members() {
    let mut rooms = Rooms::new();
    let code = create_room(&mut rooms, 0).unwrap();
    join_room(&mut rooms, &code, 1).unwrap();
    handle_message(&mut rooms, &code, 0, b"{\"cmd\":\"Start\"}", 2).unwrap();
    handle_message(&mut rooms, &code, 1, b"{\"cmd\":\"Answer\",\"question\":1,\"answer\":1}", 3)
        .unwrap();
    assert_eq!(rooms.rooms[0].room.members[0].answers.len(), 1);
    // A start during a running activity does nothing.
    handle_message(&mut rooms, &code, 0, b"{\"cmd\":\"Start\"}", 4).unwrap();
    assert_eq!(rooms.rooms[0].room.members[0].answers.len(), 1);
    // Finishing and restarting clears the answers.
    handle_message(&mut rooms, &code, 0, b"{\"cmd\":\"Finish\"}", 5).unwrap();
    handle_message(&mut rooms, &code, 0, b"{\"cmd\":\"Start\"}", 6).unwrap();
    assert_eq!(rooms.rooms[0].room.members[0].answers.len(), 0);
    assert!(matches!(rooms.rooms[0].room.game, Game::Started { .. }));
}

#[test]
fn set_name_updates_and_broadcasts_once() {
    let mut rooms = Rooms::new();
    let code = create_room(&mut rooms, 0).unwrap();
    join_room(&mut rooms, &code, 1).unwrap();
    increment_online(&mut rooms, &code, 1, 2).unwrap();
    let mut master = connect_room(&mut rooms, &code, 0, 3).unwrap();
    drain(&mut master);
    handle_message(&mut rooms, &code, 1, b"{\"cmd\":\"SetName\",\"name\":\"Rui\"}", 4).unwrap();
    assert_eq!(
        recv(&mut master),
        "{\"cmd\":\"MemberUpdated\",\"member\":{\"sckid\":1,\"name\":\"Rui\",\"group\":0,\"answers\":0}}"
    );
    assert_eq!(
        recv(&mut master),
        "{\"cmd\":\"MembersChanged\",\"members\":[{\"sckid\":1,\"name\":\"Rui\",\"group\":0,\"answers\":0}]}"
    );
    no_msg(&mut master);
    // The unchanged name is a silent no-op.
    handle_message(&mut rooms, &code, 1, b"{\"cmd\":\"SetName\",\"name\":\"Rui\"}", 5).unwrap();
    no_msg(&mut master);
}

#[test]
fn close_room_removes_it_after_telling_everyone() {
    let mut rooms = Rooms::new();
    let code = create_room(&mut rooms, 0).unwrap();
    let mut master = connect_room(&mut rooms, &code, 0, 1).unwrap();
    drain(&mut master);
    handle_message(&mut rooms, &code, 0, b"{\"cmd\":\"CloseRoom\"}", 2).unwrap();
    assert_eq!(recv(&mut master), "{\"cmd\":\"RoomClosed\"}");
    assert!(rooms.rooms.is_empty());
    assert_eq!(
        handle_message(&mut rooms, &code, 0, b"{\"cmd\":\"Start\"}", 3),
        Err(RoomError::RoomNotFound)
    );
}

#[test]
fn idle_rooms_are_evicted_on_third_ticks() {
    let mut rooms = Rooms::new();
    let idle_code = create_room(&mut rooms, 0).unwrap();
    let live_code = create_room(&mut rooms, 0).unwrap();
    let mut idle_conn = connect_room(&mut rooms, &idle_code, 0, 0).unwrap();
    drain(&mut idle_conn);
    // Keep the second room fresh.
    join_room(&mut rooms, &live_code, 3000).unwrap();
    // An hour has not quite passed for the idle room on a non-third tick.
    periodic_routine(&mut rooms, 4, 3601);
    assert_eq!(rooms.rooms.len(), 2);
    // On a third tick, just over an hour after its last interaction, the
    // idle room is told it closed and is dropped; the live room stays.
    periodic_routine(&mut rooms, 6, 3602);
    assert_eq!(rooms.rooms.len(), 1);
    assert_eq!(recv(&mut idle_conn), "{\"cmd\":\"RoomClosed\"}");
    assert!(check_exists(&rooms, &live_code, 0));
    assert!(!check_exists(&rooms, &idle_code, 0));
}

#[test]
fn malformed_and_unknown_commands_leave_the_room_open() {
    let mut rooms = Rooms::new();
    let code = create_room(&mut rooms, 0).unwrap();
    join_room(&mut rooms, &code, 1).unwrap();
    assert_eq!(
        handle_message(&mut rooms, &code, 0, b"not json", 2),
        Err(RoomError::MalformedCommand)
    );
    assert_eq!(
        handle_message(&mut rooms, &code, 0, b"{\"cmd\":\"Dance\"}", 3),
        Err(RoomError::UnknownCommand)
    );
    assert_eq!(
        handle_message(&mut rooms, &code, 0, b"{\"cmd\":\"Kick\"}", 4),
        Err(RoomError::MalformedCommand)
    );
    // The member role has its own command set: a moderator command from a
    // member slot is unknown.
    assert_eq!(
        handle_message(&mut rooms, &code, 1, b"{\"cmd\":\"Start\"}", 5),
        Err(RoomError::UnknownCommand)
    );
    // The room still works afterwards.
    assert!(handle_message(&mut rooms, &code, 0, b"{\"cmd\":\"Start\"}", 6).is_ok());
}

#[test]
fn events_can_be_encoded_for_delivery() {
    // The library encodes events itself; the delivery loop outside only
    // turns bytes into frames.
    let e = ServerCommand::MemberRemoved { sckid: 7 };
    assert_eq!(
        String::from_utf8(extensao::codec::encode_event(&e)).unwrap(),
        "{\"cmd\":\"MemberRemoved\",\"sckid\":7}"
    );
    let cmd = extensao::codec::decode_master(b"{\"cmd\":\"Kick\",\"sckid\":7}").unwrap();
    assert!(matches!(cmd, MasterCommand::Kick { sckid: 7 }));
}

#[test]
fn a_member_snapshot_during_a_running_activity_shows_its_own_answers() {
    let mut rooms = Rooms::new();
    let code = create_room(&mut rooms, 100).unwrap();
    join_room(&mut rooms, &code, 101).unwrap();
    handle_message(&mut rooms, &code, 0, b"{\"cmd\":\"Start\"}", 100).unwrap();
    handle_message(&mut rooms, &code, 1, b"{\"cmd\":\"Answer\",\"question\":2,\"answer\":0}", 110)
        .unwrap();
    let mut member = connect_room(&mut rooms, &code, 1, 150).unwrap();
    assert_eq!(
        recv(&mut member),
        "{\"cmd\":\"RoomChanged\",\"game_time\":300,\"questions\":\"default\"}"
    );
    assert_eq!(
        recv(&mut member),
        "{\"cmd\":\"GroupUpdated\",\"group\":0,\"name\":\"Grupo\",\"color\":\"68,68,170\"}"
    );
    assert_eq!(recv(&mut member), "{\"cmd\":\"MembersChanged\",\"members\":[]}");
    // The member's own answers replay even while the member is offline,
    // then the remaining time: the deadline is 100 + 300.
    assert_eq!(
        recv(&mut member),
        "{\"cmd\":\"AnswersChanged\",\"answers\":[{\"member\":{\"sckid\":1,\"name\":\"Aluno #1\",\"group\":0,\"answers\":1},\"answers\":[{\"question\":2,\"answer\":0}]}]}"
    );
    assert_eq!(recv(&mut member), "{\"cmd\":\"Started\",\"remaining\":250}");
    no_msg(&mut member);
}

#[test]
fn kicking_an_already_kicked_slot_is_allowed_and_stays_dead() {
    let mut rooms = Rooms::new();
    let code = create_room(&mut rooms, 0).unwrap();
    join_room(&mut rooms, &code, 1).unwrap();
    handle_message(&mut rooms, &code, 0, b"{\"cmd\":\"Kick\",\"sckid\":1}", 2).unwrap();
    assert!(rooms.rooms[0].room.members[0].kicked);
    assert!(handle_message(&mut rooms, &code, 0, b"{\"cmd\":\"Kick\",\"sckid\":1}", 3).is_ok());
    assert!(rooms.rooms[0].room.members[0].kicked);
    assert!(matches!(connect_room(&mut rooms, &code, 1, 4), Err(RoomError::SlotKicked)));
}

#[test]
fn every_drawn_code_has_the_shape() {
    for _ in 0..200 {
        let code = extensao::state::random_room_code();
        assert_eq!(code.len(), 3);
        assert!(is_consonant(code[0]));
        assert!(is_vowel(code[1]));
        assert!(is_consonant(code[2]));
    }
}
