use extensao::codec::{decode_master, decode_member, encode_event};
use extensao::command::{
    Answer, MasterCommand, Member, MemberAnswers, MemberCommand, ServerCommand,
};
use extensao::RoomError;

fn enc(e: &ServerCommand) -> String {
    String::from_utf8(encode_event(e)).unwrap()
}

#[test]
fn events_encode_as_tagged_objects() {
    assert_eq!(enc(&ServerCommand::Started { remaining: 300 }), "{\"cmd\":\"Started\",\"remaining\":300}");
    assert_eq!(enc(&ServerCommand::ExtraTime { seconds: 0 }), "{\"cmd\":\"ExtraTime\",\"seconds\":0}");
    assert_eq!(enc(&ServerCommand::RoomClosed), "{\"cmd\":\"RoomClosed\"}");
    assert_eq!(enc(&ServerCommand::MemberRemoved { sckid: 4294967295 }), "{\"cmd\":\"MemberRemoved\",\"sckid\":4294967295}");
    assert_eq!(
        enc(&ServerCommand::RoomChanged { game_time: 42, questions: b"default".to_vec() }),
        "{\"cmd\":\"RoomChanged\",\"game_time\":42,\"questions\":\"default\"}"
    );
    assert_eq!(
        enc(&ServerCommand::GroupUpdated { group: 2, name: b"Grupo".to_vec(), color: b"1,2,3".to_vec() }),
        "{\"cmd\":\"GroupUpdated\",\"group\":2,\"name\":\"Grupo\",\"color\":\"1,2,3\"}"
    );
    assert_eq!(enc(&ServerCommand::GroupRemoved { group: 2 }), "{\"cmd\":\"GroupRemoved\",\"group\":2}");
}

#[test]
fn member_lists_and_aggregates_encode_in_order() {
    let m1 = Member { sckid: 1, name: b"ana".to_vec(), group: 0, answers: 2 };
    let m2 = Member { sckid: 2, name: b"bo".to_vec(), group: 1, answers: 0 };
    assert_eq!(
        enc(&ServerCommand::MembersChanged { members: vec![m1, m2] }),
        "{\"cmd\":\"MembersChanged\",\"members\":[{\"sckid\":1,\"name\":\"ana\",\"group\":0,\"answers\":2},{\"sckid\":2,\"name\":\"bo\",\"group\":1,\"answers\":0}]}"
    );
    assert_eq!(
        enc(&ServerCommand::MembersChanged { members: vec![] }),
        "{\"cmd\":\"MembersChanged\",\"members\":[]}"
    );
    let ma = MemberAnswers {
        member: Member { sckid: 1, name: b"ana".to_vec(), group: 0, answers: 2 },
        answers: vec![
            Answer { question: 1, answer: 0 },
            Answer { question: 2, answer: 3 },
        ],
    };
    assert_eq!(
        enc(&ServerCommand::Finished { answers: vec![ma] }),
        "{\"cmd\":\"Finished\",\"answers\":[{\"member\":{\"sckid\":1,\"name\":\"ana\",\"group\":0,\"answers\":2},\"answers\":[{\"question\":1,\"answer\":0},{\"question\":2,\"answer\":3}]}]}"
    );
}

#[test]
fn strings_are_escaped_on_the_way_out() {
    let e = ServerCommand::GroupUpdated {
        group: 1,
        name: b"a\"b\\c".to_vec(),
        color: vec![10, 9, 65],
    };
    assert_eq!(
        enc(&e),
        "{\"cmd\":\"GroupUpdated\",\"group\":1,\"name\":\"a\\\"b\\\\c\",\"color\":\"\\u000a\\u0009A\"}"
    );
}

#[test]
fn moderator_commands_decode_by_tag() {
    assert!(matches!(decode_master(b"{\"cmd\":\"Start\"}"), Ok(MasterCommand::Start)));
    assert!(matches!(decode_master(b"{\"cmd\":\"Finish\"}"), Ok(MasterCommand::Finish)));
    assert!(matches!(decode_master(b"{\"cmd\":\"CloseRoom\"}"), Ok(MasterCommand::CloseRoom)));
    assert!(matches!(decode_master(b"{\"cmd\":\"CreateGroup\"}"), Ok(MasterCommand::CreateGroup)));
    assert!(matches!(
        decode_master(b"{\"cmd\":\"ExtraTime\",\"seconds\":90}"),
        Ok(MasterCommand::ExtraTime { seconds: 90 })
    ));
    assert!(matches!(
        decode_master(b"{\"cmd\":\"SetTime\",\"seconds\":4294967295}"),
        Ok(MasterCommand::SetTime { seconds: 4294967295 })
    ));
    assert!(matches!(
        decode_master(b"{\"cmd\":\"RemoveGroup\",\"group\":3}"),
        Ok(MasterCommand::RemoveGroup { group: 3 })
    ));
    assert!(matches!(
        decode_master(b"{\"cmd\":\"Kick\",\"sckid\":2}"),
        Ok(MasterCommand::Kick { sckid: 2 })
    ));
    match decode_master(b"{\"cmd\":\"SetGroupName\",\"group\":1,\"name\":\"Time\"}") {
        Ok(MasterCommand::SetGroupName { group, name }) => {
            assert_eq!(group, 1);
            assert_eq!(name, b"Time".to_vec());
        }
        other => panic!("unexpected decode: {:?}", other),
    }
    match decode_master(b"{\"cmd\":\"SetQuestions\",\"questions\":\"pool9\"}") {
        Ok(MasterCommand::SetQuestions { questions }) => assert_eq!(questions, b"pool9".to_vec()),
        other => panic!("unexpected decode: {:?}", other),
    }
}

#[test]
fn fields_may_come_in_any_order_with_whitespace() {
    match decode_master(b" { \"sckid\" : 3 , \"cmd\" : \"Kick\" } ") {
        Ok(MasterCommand::Kick { sckid }) => assert_eq!(sckid, 3),
        other => panic!("unexpected decode: {:?}", other),
    }
}

#[test]
fn member_commands_decode_by_tag() {
    match decode_member(b"{\"cmd\":\"SetName\",\"name\":\"Zo\\u0009e\"}") {
        // The only unicode escapes taken are the named ones; \u belongs to
        // the refused set, so this whole frame is malformed.
        Err(e) => assert_eq!(e, RoomError::MalformedCommand),
        other => panic!("unexpected decode: {:?}", other),
    }
    match decode_member(b"{\"cmd\":\"SetName\",\"name\":\"a\\\"b\\\\c\\nd\"}") {
        Ok(MemberCommand::SetName { name }) => assert_eq!(name, b"a\"b\\c\nd".to_vec()),
        other => panic!("unexpected decode: {:?}", other),
    }
    assert!(matches!(
        decode_member(b"{\"cmd\":\"SetGroup\",\"group\":2}"),
        Ok(MemberCommand::SetGroup { group: 2 })
    ));
    assert!(matches!(
        decode_member(b"{\"cmd\":\"Answer\",\"question\":3,\"answer\":1}"),
        Ok(MemberCommand::Answer { question: 3, answer: 1 })
    ));
}

#[test]
fn bad_frames_are_rejected_with_the_right_error() {
    // Not an object at all.
    assert!(matches!(decode_master(b""), Err(RoomError::MalformedCommand)));
    assert!(matches!(decode_master(b"[1,2]"), Err(RoomError::MalformedCommand)));
    assert!(matches!(decode_master(b"{\"cmd\":\"Start\"} trailing"), Err(RoomError::MalformedCommand)));
    // No string under the tag key.
    assert!(matches!(decode_master(b"{}"), Err(RoomError::MalformedCommand)));
    assert!(matches!(decode_master(b"{\"cmd\":3}"), Err(RoomError::MalformedCommand)));
    // A known tag with a missing or mistyped argument.
    assert!(matches!(decode_master(b"{\"cmd\":\"ExtraTime\"}"), Err(RoomError::MalformedCommand)));
    assert!(matches!(decode_master(b"{\"cmd\":\"ExtraTime\",\"seconds\":\"9\"}"), Err(RoomError::MalformedCommand)));
    // A number beyond the wire range.
    assert!(matches!(decode_master(b"{\"cmd\":\"SetTime\",\"seconds\":4294967296}"), Err(RoomError::MalformedCommand)));
    // A tag no role knows.
    assert!(matches!(decode_master(b"{\"cmd\":\"Dance\"}"), Err(RoomError::UnknownCommand)));
    assert!(matches!(decode_member(b"{\"cmd\":\"Kick\",\"sckid\":1}"), Err(RoomError::UnknownCommand)));
}

#[test]
fn an_empty_envelope_is_wellformed_but_tagless() {
    assert!(matches!(decode_master(b" { } "), Err(RoomError::MalformedCommand)));
}

#[test]
fn the_first_occurrence_of_a_key_wins() {
    assert!(matches!(
        decode_master(b"{\"cmd\":\"SetTime\",\"seconds\":7,\"seconds\":9}"),
        Ok(MasterCommand::SetTime { seconds: 7 })
    ));
}

#[test]
fn digit_runs_may_carry_leading_zeros() {
    assert!(matches!(
        decode_master(b"{\"cmd\":\"SetTime\",\"seconds\":007}"),
        Ok(MasterCommand::SetTime { seconds: 7 })
    ));
}

#[test]
fn the_solidus_escape_and_empty_strings_decode() {
    match decode_member(b"{\"cmd\":\"SetName\",\"name\":\"a\\/b\"}") {
        Ok(MemberCommand::SetName { name }) => assert_eq!(name, b"a/b".to_vec()),
        other => panic!("unexpected decode: {:?}", other),
    }
    match decode_member(b"{\"cmd\":\"SetName\",\"name\":\"\"}") {
        Ok(MemberCommand::SetName { name }) => assert_eq!(name, b"".to_vec()),
        other => panic!("unexpected decode: {:?}", other),
    }
}

#[test]
fn unterminated_strings_are_malformed() {
    assert!(matches!(
        decode_member(b"{\"cmd\":\"SetName\",\"name\":\"oops}"),
        Err(RoomError::MalformedCommand)
    ));
    assert!(matches!(
        decode_member(b"{\"cmd\":\"SetName\",\"name\":\"oops\\\"}"),
        Err(RoomError::MalformedCommand)
    ));
}
