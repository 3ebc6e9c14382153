//! The wire codec: outbound events encode to tagged JSON objects, inbound
//! frames decode to typed commands.
//!
//! The spec functions in this module are the definition of the wire format;
//! every encoder proves that it produces exactly those bytes.

use vstd::prelude::*;

use crate::bytes::{dec_of, push_dec, push_str_bytes};
use crate::command::{
    member_answers_view, members_view, Answer, EventV, Member, MemberAnswers, MemberAnswersV,
    MemberV, ServerCommand,
};

verus! {

use vstd::string::StringSliceAdditionalSpecFns;

/// The lowercase hexadecimal digit of a value below sixteen.
pub open spec fn hex_digit(n: nat) -> u8 {
    if n < 10 {
        (48 + n) as u8
    } else {
        (87 + n) as u8
    }
}

/// How one byte appears inside a JSON string: quote and backslash are
/// escaped, control bytes become `\u00XX`, all else stands as itself.
pub open spec fn esc_byte(b: u8) -> Seq<u8> {
    if b == 34 {
        seq![92u8, 34u8]
    } else if b == 92 {
        seq![92u8, 92u8]
    } else if b < 32 {
        seq![92u8, 117u8, 48u8, 48u8, hex_digit((b / 16) as nat), hex_digit((b % 16) as nat)]
    } else {
        seq![b]
    }
}

/// The escaped body of a JSON string holding the bytes `s`.
pub open spec fn esc(s: Seq<u8>) -> Seq<u8>
    decreases s.len(),
{
    if s.len() == 0 {
        Seq::empty()
    } else {
        esc_byte(s[0]) + esc(s.drop_first())
    }
}

/// A whole JSON string: quote, escaped body, quote.
pub open spec fn jstr(s: Seq<u8>) -> Seq<u8> {
    seq![34u8] + esc(s) + seq![34u8]
}

proof fn lemma_esc_snoc(s: Seq<u8>, b: u8)
    ensures
        esc(s.push(b)) == esc(s) + esc_byte(b),
    decreases s.len(),
{
    if s.len() == 0 {
        assert(s.push(b).drop_first() =~= Seq::<u8>::empty());
        assert(esc(Seq::<u8>::empty()) == Seq::<u8>::empty());
        assert(s.push(b)[0] == b);
        assert(esc(s.push(b)) =~= esc(s) + esc_byte(b));
    } else {
        lemma_esc_snoc(s.drop_first(), b);
        assert(s.push(b).drop_first() =~= s.drop_first().push(b));
        assert(s.push(b)[0] == s[0]);
        assert(esc(s.push(b)) =~= esc(s) + esc_byte(b));
    }
}

fn hex_digit_byte(n: u8) -> (r: u8)
    requires
        n < 16,
    ensures
        r == hex_digit(n as nat),
{
    if n < 10 {
        48 + n
    } else {
        87 + n
    }
}

/// Appends the escaped body of a JSON string holding `s`.
fn push_escaped(out: &mut Vec<u8>, s: &[u8])
    ensures
        final(out)@ == old(out)@ + esc(s@),
{
    let mut i: usize = 0;
    while i < s.len()
        invariant
            i <= s.len(),
            out@ == old(out)@ + esc(s@.subrange(0, i as int)),
        decreases s.len() - i,
    {
        let b = s[i];
        proof {
            lemma_esc_snoc(s@.subrange(0, i as int), b);
            assert(s@.subrange(0, i + 1 as int) =~= s@.subrange(0, i as int).push(b));
        }
        if b == 34 {
            out.push(92);
            out.push(34);
        } else if b == 92 {
            out.push(92);
            out.push(92);
        } else if b < 32 {
            out.push(92);
            out.push(117);
            out.push(48);
            out.push(48);
            out.push(hex_digit_byte(b / 16));
            out.push(hex_digit_byte(b % 16));
        } else {
            out.push(b);
        }
        assert(out@ =~= old(out)@ + esc(s@.subrange(0, i + 1 as int)));
        i += 1;
    }
    assert(s@.subrange(0, s@.len() as int) =~= s@);
}

/// Appends a whole JSON string holding the bytes `s`.
fn push_jstr(out: &mut Vec<u8>, s: &[u8])
    ensures
        final(out)@ == old(out)@ + jstr(s@),
{
    out.push(34);
    push_escaped(out, s);
    out.push(34);
    assert(out@ =~= old(out)@ + jstr(s@));
}

/// One member on the wire.
pub open spec fn enc_member(m: MemberV) -> Seq<u8> {
    "{\"sckid\":".spec_bytes() + dec_of(m.sckid as nat) + ",\"name\":".spec_bytes() + jstr(m.name)
        + ",\"group\":".spec_bytes() + dec_of(m.group as nat) + ",\"answers\":".spec_bytes()
        + dec_of(m.answers as nat) + "}".spec_bytes()
}

fn push_member(out: &mut Vec<u8>, m: &Member)
    ensures
        final(out)@ == old(out)@ + enc_member(m@),
{
    push_str_bytes(out, "{\"sckid\":");
    push_dec(out, m.sckid);
    push_str_bytes(out, ",\"name\":");
    push_jstr(out, m.name.as_slice());
    push_str_bytes(out, ",\"group\":");
    push_dec(out, m.group);
    push_str_bytes(out, ",\"answers\":");
    push_dec(out, m.answers);
    push_str_bytes(out, "}");
    assert(out@ =~= old(out)@ + enc_member(m@));
}

/// One answer on the wire.
pub open spec fn enc_answer(a: Answer) -> Seq<u8> {
    "{\"question\":".spec_bytes() + dec_of(a.question as nat) + ",\"answer\":".spec_bytes()
        + dec_of(a.answer as nat) + "}".spec_bytes()
}

fn push_answer(out: &mut Vec<u8>, a: &Answer)
    ensures
        final(out)@ == old(out)@ + enc_answer(*a),
{
    push_str_bytes(out, "{\"question\":");
    push_dec(out, a.question);
    push_str_bytes(out, ",\"answer\":");
    push_dec(out, a.answer);
    push_str_bytes(out, "}");
    assert(out@ =~= old(out)@ + enc_answer(*a));
}

/// The tail of a non-empty JSON array of members: a comma before each
/// further element.
pub open spec fn cat_members(s: Seq<MemberV>) -> Seq<u8>
    decreases s.len(),
{
    if s.len() == 0 {
        Seq::empty()
    } else {
        ",".spec_bytes() + enc_member(s[0]) + cat_members(s.drop_first())
    }
}

/// A JSON array of members.
pub open spec fn enc_members(s: Seq<MemberV>) -> Seq<u8> {
    if s.len() == 0 {
        "[]".spec_bytes()
    } else {
        "[".spec_bytes() + enc_member(s[0]) + cat_members(s.drop_first()) + "]".spec_bytes()
    }
}

proof fn lemma_cat_members_snoc(s: Seq<MemberV>, m: MemberV)
    ensures
        cat_members(s.push(m)) == cat_members(s) + ",".spec_bytes() + enc_member(m),
    decreases s.len(),
{
    if s.len() == 0 {
        assert(s.push(m).drop_first() =~= Seq::<MemberV>::empty());
        assert(cat_members(Seq::<MemberV>::empty()) == Seq::<u8>::empty());
        assert(s.push(m)[0] == m);
        assert(cat_members(s.push(m)) =~= cat_members(s) + ",".spec_bytes() + enc_member(m));
    } else {
        lemma_cat_members_snoc(s.drop_first(), m);
        assert(s.push(m).drop_first() =~= s.drop_first().push(m));
        assert(s.push(m)[0] == s[0]);
        assert(cat_members(s.push(m)) =~= cat_members(s) + ",".spec_bytes() + enc_member(m));
    }
}

fn push_members(out: &mut Vec<u8>, v: &Vec<Member>)
    ensures
        final(out)@ == old(out)@ + enc_members(members_view(v@)),
{
    if v.len() == 0 {
        push_str_bytes(out, "[]");
        return ;
    }
    push_str_bytes(out, "[");
    push_member(out, &v[0]);
    let mut i: usize = 1;
    while i < v.len()
        invariant
            1 <= i <= v.len(),
            out@ == old(out)@ + "[".spec_bytes() + enc_member(v@[0]@) + cat_members(
                members_view(v@.subrange(1, i as int)),
            ),
        decreases v.len() - i,
    {
        push_str_bytes(out, ",");
        push_member(out, &v[i]);
        proof {
            lemma_cat_members_snoc(members_view(v@.subrange(1, i as int)), v@[i as int]@);
            assert(members_view(v@.subrange(1, i + 1 as int)) =~= members_view(
                v@.subrange(1, i as int),
            ).push(v@[i as int]@));
            assert(out@ =~= old(out)@ + "[".spec_bytes() + enc_member(v@[0]@) + cat_members(
                members_view(v@.subrange(1, i + 1 as int)),
            ));
        }
        i += 1;
    }
    push_str_bytes(out, "]");
    proof {
        assert(members_view(v@.subrange(1, v@.len() as int)) =~= members_view(v@).drop_first());
        assert(members_view(v@)[0] == v@[0]@);
        assert(out@ =~= old(out)@ + enc_members(members_view(v@)));
    }
}

/// The tail of a non-empty JSON array of answers.
pub open spec fn cat_answers(s: Seq<Answer>) -> Seq<u8>
    decreases s.len(),
{
    if s.len() == 0 {
        Seq::empty()
    } else {
        ",".spec_bytes() + enc_answer(s[0]) + cat_answers(s.drop_first())
    }
}

/// A JSON array of answers.
pub open spec fn enc_answers(s: Seq<Answer>) -> Seq<u8> {
    if s.len() == 0 {
        "[]".spec_bytes()
    } else {
        "[".spec_bytes() + enc_answer(s[0]) + cat_answers(s.drop_first()) + "]".spec_bytes()
    }
}

proof fn lemma_cat_answers_snoc(s: Seq<Answer>, a: Answer)
    ensures
        cat_answers(s.push(a)) == cat_answers(s) + ",".spec_bytes() + enc_answer(a),
    decreases s.len(),
{
    if s.len() == 0 {
        assert(s.push(a).drop_first() =~= Seq::<Answer>::empty());
        assert(cat_answers(Seq::<Answer>::empty()) == Seq::<u8>::empty());
        assert(s.push(a)[0] == a);
        assert(cat_answers(s.push(a)) =~= cat_answers(s) + ",".spec_bytes() + enc_answer(a));
    } else {
        lemma_cat_answers_snoc(s.drop_first(), a);
        assert(s.push(a).drop_first() =~= s.drop_first().push(a));
        assert(s.push(a)[0] == s[0]);
        assert(cat_answers(s.push(a)) =~= cat_answers(s) + ",".spec_bytes() + enc_answer(a));
    }
}

fn push_answers(out: &mut Vec<u8>, v: &Vec<Answer>)
    ensures
        final(out)@ == old(out)@ + enc_answers(v@),
{
    if v.len() == 0 {
        push_str_bytes(out, "[]");
        return ;
    }
    push_str_bytes(out, "[");
    push_answer(out, &v[0]);
    let mut i: usize = 1;
    while i < v.len()
        invariant
            1 <= i <= v.len(),
            out@ == old(out)@ + "[".spec_bytes() + enc_answer(v@[0]) + cat_answers(
                v@.subrange(1, i as int),
            ),
        decreases v.len() - i,
    {
        push_str_bytes(out, ",");
        push_answer(out, &v[i]);
        proof {
            lemma_cat_answers_snoc(v@.subrange(1, i as int), v@[i as int]);
            assert(v@.subrange(1, i + 1 as int) =~= v@.subrange(1, i as int).push(v@[i as int]));
            assert(out@ =~= old(out)@ + "[".spec_bytes() + enc_answer(v@[0]) + cat_answers(
                v@.subrange(1, i + 1 as int),
            ));
        }
        i += 1;
    }
    push_str_bytes(out, "]");
    proof {
        assert(v@.subrange(1, v@.len() as int) =~= v@.drop_first());
        assert(out@ =~= old(out)@ + enc_answers(v@));
    }
}

/// One member together with all recorded answers, on the wire.
pub open spec fn enc_member_answers(ma: MemberAnswersV) -> Seq<u8> {
    "{\"member\":".spec_bytes() + enc_member(ma.member) + ",\"answers\":".spec_bytes()
        + enc_answers(ma.answers) + "}".spec_bytes()
}

fn push_member_answers(out: &mut Vec<u8>, ma: &MemberAnswers)
    ensures
        final(out)@ == old(out)@ + enc_member_answers(ma@),
{
    push_str_bytes(out, "{\"member\":");
    push_member(out, &ma.member);
    push_str_bytes(out, ",\"answers\":");
    push_answers(out, &ma.answers);
    push_str_bytes(out, "}");
    assert(out@ =~= old(out)@ + enc_member_answers(ma@));
}

/// The tail of a non-empty JSON array of member-answer records.
pub open spec fn cat_member_answers(s: Seq<MemberAnswersV>) -> Seq<u8>
    decreases s.len(),
{
    if s.len() == 0 {
        Seq::empty()
    } else {
        ",".spec_bytes() + enc_member_answers(s[0]) + cat_member_answers(s.drop_first())
    }
}

/// A JSON array of member-answer records: the answer aggregate.
pub open spec fn enc_aggregate(s: Seq<MemberAnswersV>) -> Seq<u8> {
    if s.len() == 0 {
        "[]".spec_bytes()
    } else {
        "[".spec_bytes() + enc_member_answers(s[0]) + cat_member_answers(s.drop_first())
            + "]".spec_bytes()
    }
}

proof fn lemma_cat_member_answers_snoc(s: Seq<MemberAnswersV>, ma: MemberAnswersV)
    ensures
        cat_member_answers(s.push(ma)) == cat_member_answers(s) + ",".spec_bytes()
            + enc_member_answers(ma),
    decreases s.len(),
{
    if s.len() == 0 {
        assert(s.push(ma).drop_first() =~= Seq::<MemberAnswersV>::empty());
        assert(cat_member_answers(Seq::<MemberAnswersV>::empty()) == Seq::<u8>::empty());
        assert(s.push(ma)[0] == ma);
        assert(cat_member_answers(s.push(ma)) =~= cat_member_answers(s) + ",".spec_bytes()
            + enc_member_answers(ma));
    } else {
        lemma_cat_member_answers_snoc(s.drop_first(), ma);
        assert(s.push(ma).drop_first() =~= s.drop_first().push(ma));
        assert(s.push(ma)[0] == s[0]);
        assert(cat_member_answers(s.push(ma)) =~= cat_member_answers(s) + ",".spec_bytes()
            + enc_member_answers(ma));
    }
}

fn push_aggregate(out: &mut Vec<u8>, v: &Vec<MemberAnswers>)
    ensures
        final(out)@ == old(out)@ + enc_aggregate(member_answers_view(v@)),
{
    if v.len() == 0 {
        push_str_bytes(out, "[]");
        return ;
    }
    push_str_bytes(out, "[");
    push_member_answers(out, &v[0]);
    let mut i: usize = 1;
    while i < v.len()
        invariant
            1 <= i <= v.len(),
            out@ == old(out)@ + "[".spec_bytes() + enc_member_answers(v@[0]@) + cat_member_answers(
                member_answers_view(v@.subrange(1, i as int)),
            ),
        decreases v.len() - i,
    {
        push_str_bytes(out, ",");
        push_member_answers(out, &v[i]);
        proof {
            lemma_cat_member_answers_snoc(
                member_answers_view(v@.subrange(1, i as int)),
                v@[i as int]@,
            );
            assert(member_answers_view(v@.subrange(1, i + 1 as int)) =~= member_answers_view(
                v@.subrange(1, i as int),
            ).push(v@[i as int]@));
            assert(out@ =~= old(out)@ + "[".spec_bytes() + enc_member_answers(v@[0]@)
                + cat_member_answers(member_answers_view(v@.subrange(1, i + 1 as int))));
        }
        i += 1;
    }
    push_str_bytes(out, "]");
    proof {
        assert(member_answers_view(v@.subrange(1, v@.len() as int)) =~= member_answers_view(
            v@,
        ).drop_first());
        assert(member_answers_view(v@)[0] == v@[0]@);
        assert(out@ =~= old(out)@ + enc_aggregate(member_answers_view(v@)));
    }
}

/// The exact bytes of an outbound event: a JSON object tagged by a `cmd`
/// field naming the event.
pub open spec fn enc_event(e: EventV) -> Seq<u8> {
    match e {
        EventV::Started { remaining } => "{\"cmd\":\"Started\",\"remaining\":".spec_bytes()
            + dec_of(remaining as nat) + "}".spec_bytes(),
        EventV::Finished { answers } => "{\"cmd\":\"Finished\",\"answers\":".spec_bytes()
            + enc_aggregate(answers) + "}".spec_bytes(),
        EventV::ExtraTime { seconds } => "{\"cmd\":\"ExtraTime\",\"seconds\":".spec_bytes()
            + dec_of(seconds as nat) + "}".spec_bytes(),
        EventV::RoomChanged { game_time, questions } => {
            "{\"cmd\":\"RoomChanged\",\"game_time\":".spec_bytes() + dec_of(game_time as nat)
                + ",\"questions\":".spec_bytes() + jstr(questions) + "}".spec_bytes()
        },
        EventV::GroupUpdated { group, name, color } => {
            "{\"cmd\":\"GroupUpdated\",\"group\":".spec_bytes() + dec_of(group as nat)
                + ",\"name\":".spec_bytes() + jstr(name) + ",\"color\":".spec_bytes() + jstr(color)
                + "}".spec_bytes()
        },
        EventV::GroupRemoved { group } => "{\"cmd\":\"GroupRemoved\",\"group\":".spec_bytes()
            + dec_of(group as nat) + "}".spec_bytes(),
        EventV::AnswersChanged { answers } => "{\"cmd\":\"AnswersChanged\",\"answers\":".spec_bytes()
            + enc_aggregate(answers) + "}".spec_bytes(),
        EventV::MembersChanged { members } => "{\"cmd\":\"MembersChanged\",\"members\":".spec_bytes()
            + enc_members(members) + "}".spec_bytes(),
        EventV::AnswerUpdated { answer, member } => {
            "{\"cmd\":\"AnswerUpdated\",\"answer\":".spec_bytes() + enc_answer(answer)
                + ",\"member\":".spec_bytes() + enc_member(member) + "}".spec_bytes()
        },
        EventV::MemberUpdated { member } => "{\"cmd\":\"MemberUpdated\",\"member\":".spec_bytes()
            + enc_member(member) + "}".spec_bytes(),
        EventV::MemberRemoved { sckid } => "{\"cmd\":\"MemberRemoved\",\"sckid\":".spec_bytes()
            + dec_of(sckid as nat) + "}".spec_bytes(),
        EventV::RoomClosed => "{\"cmd\":\"RoomClosed\"}".spec_bytes(),
    }
}

/// Encodes one outbound event to the exact bytes that every receiving
/// connection sees.
pub fn encode_event(e: &ServerCommand) -> (r: Vec<u8>)
    ensures
        r@ == enc_event(e@),
{
    let mut out: Vec<u8> = Vec::new();
    match e {
        ServerCommand::Started { remaining } => {
            push_str_bytes(&mut out, "{\"cmd\":\"Started\",\"remaining\":");
            push_dec(&mut out, *remaining);
            push_str_bytes(&mut out, "}");
        },
        ServerCommand::Finished { answers } => {
            push_str_bytes(&mut out, "{\"cmd\":\"Finished\",\"answers\":");
            push_aggregate(&mut out, answers);
            push_str_bytes(&mut out, "}");
        },
        ServerCommand::ExtraTime { seconds } => {
            push_str_bytes(&mut out, "{\"cmd\":\"ExtraTime\",\"seconds\":");
            push_dec(&mut out, *seconds);
            push_str_bytes(&mut out, "}");
        },
        ServerCommand::RoomChanged { game_time, questions } => {
            push_str_bytes(&mut out, "{\"cmd\":\"RoomChanged\",\"game_time\":");
            push_dec(&mut out, *game_time);
            push_str_bytes(&mut out, ",\"questions\":");
            push_jstr(&mut out, questions.as_slice());
            push_str_bytes(&mut out, "}");
        },
        ServerCommand::GroupUpdated { group, name, color } => {
            push_str_bytes(&mut out, "{\"cmd\":\"GroupUpdated\",\"group\":");
            push_dec(&mut out, *group);
            push_str_bytes(&mut out, ",\"name\":");
            push_jstr(&mut out, name.as_slice());
            push_str_bytes(&mut out, ",\"color\":");
            push_jstr(&mut out, color.as_slice());
            push_str_bytes(&mut out, "}");
        },
        ServerCommand::GroupRemoved { group } => {
            push_str_bytes(&mut out, "{\"cmd\":\"GroupRemoved\",\"group\":");
            push_dec(&mut out, *group);
            push_str_bytes(&mut out, "}");
        },
        ServerCommand::AnswersChanged { answers } => {
            push_str_bytes(&mut out, "{\"cmd\":\"AnswersChanged\",\"answers\":");
            push_aggregate(&mut out, answers);
            push_str_bytes(&mut out, "}");
        },
        ServerCommand::MembersChanged { members } => {
            push_str_bytes(&mut out, "{\"cmd\":\"MembersChanged\",\"members\":");
            push_members(&mut out, members);
            push_str_bytes(&mut out, "}");
        },
        ServerCommand::AnswerUpdated { answer, member } => {
            push_str_bytes(&mut out, "{\"cmd\":\"AnswerUpdated\",\"answer\":");
            push_answer(&mut out, answer);
            push_str_bytes(&mut out, ",\"member\":");
            push_member(&mut out, member);
            push_str_bytes(&mut out, "}");
        },
        ServerCommand::MemberUpdated { member } => {
            push_str_bytes(&mut out, "{\"cmd\":\"MemberUpdated\",\"member\":");
            push_member(&mut out, member);
            push_str_bytes(&mut out, "}");
        },
        ServerCommand::MemberRemoved { sckid } => {
            push_str_bytes(&mut out, "{\"cmd\":\"MemberRemoved\",\"sckid\":");
            push_dec(&mut out, *sckid);
            push_str_bytes(&mut out, "}");
        },
        ServerCommand::RoomClosed => {
            push_str_bytes(&mut out, "{\"cmd\":\"RoomClosed\"}");
        },
    }
    assert(out@ =~= enc_event(e@));
    out
}

/// One scalar of an inbound envelope: the protocol takes only strings
/// and unsigned numbers as argument values.
#[verifier::ext_equal]
pub ghost enum JVal {
    S(Seq<u8>),
    N(u32),
}

/// An exec scalar of an inbound envelope.
#[derive(Debug)]
pub enum JsonVal {
    S(Vec<u8>),
    N(u32),
}

impl View for JsonVal {
    type V = JVal;

    open spec fn view(&self) -> JVal {
        match *self {
            JsonVal::S(ref v) => JVal::S(v@),
            JsonVal::N(n) => JVal::N(n),
        }
    }
}

/// JSON whitespace: space, tab, line feed, carriage return.
pub open spec fn is_ws(b: u8) -> bool {
    b == 32 || b == 9 || b == 10 || b == 13
}

/// An ASCII decimal digit.
pub open spec fn is_digit(b: u8) -> bool {
    48 <= b <= 57
}

/// The first position at or after `i` that does not hold whitespace.
pub open spec fn skip_ws(s: Seq<u8>, i: int) -> int
    decreases s.len() - i,
{
    if 0 <= i < s.len() && is_ws(s[i]) {
        skip_ws(s, i + 1)
    } else {
        i
    }
}

/// What a backslash escape inside a string stands for; `\uXXXX` and
/// unknown escapes are refused.
pub open spec fn esc_unmap(b: u8) -> Option<u8> {
    if b == 34 {
        Some(34u8)
    } else if b == 92 {
        Some(92u8)
    } else if b == 47 {
        Some(47u8)
    } else if b == 110 {
        Some(10u8)
    } else if b == 116 {
        Some(9u8)
    } else if b == 114 {
        Some(13u8)
    } else if b == 98 {
        Some(8u8)
    } else if b == 102 {
        Some(12u8)
    } else {
        None
    }
}

/// The body of a string read from the opening position `i` (just past
/// the opening quote) to its closing quote: any byte but quote and
/// backslash stands for itself, a backslash takes [`esc_unmap`].
/// Returns the bytes and the position just past the closing quote.
pub open spec fn parse_str_body(s: Seq<u8>, i: int) -> Option<(Seq<u8>, int)>
    decreases s.len() - i,
{
    if i < 0 || i >= s.len() {
        None
    } else if s[i] == 34 {
        Some((Seq::empty(), i + 1))
    } else if s[i] == 92 {
        if i + 1 >= s.len() {
            None
        } else {
            match esc_unmap(s[i + 1]) {
                None => None,
                Some(b) => match parse_str_body(s, i + 2) {
                    None => None,
                    Some((t, j)) => Some((seq![b] + t, j)),
                },
            }
        }
    } else {
        match parse_str_body(s, i + 1) {
            None => None,
            Some((t, j)) => Some((seq![s[i]] + t, j)),
        }
    }
}

/// A run of decimal digits starting at `i`, folded onto `acc`; a value
/// beyond `u32` is refused.
pub open spec fn parse_digits(s: Seq<u8>, i: int, acc: u32) -> Option<(u32, int)>
    decreases s.len() - i,
{
    if 0 <= i < s.len() && is_digit(s[i]) {
        if acc * 10 + (s[i] - 48) > 0xFFFF_FFFF {
            None
        } else {
            parse_digits(s, i + 1, (acc * 10 + (s[i] - 48)) as u32)
        }
    } else {
        Some((acc, i))
    }
}

/// The key-value pairs of an envelope from position `i` (just past the
/// opening brace or a comma) through the closing brace: a quoted key, a
/// colon, a string or number value, then a comma and more pairs or the
/// closing brace.  Returns the pairs and the position just past the
/// brace.
pub open spec fn parse_pairs(s: Seq<u8>, i: int) -> Option<(Seq<(Seq<u8>, JVal)>, int)>
    decreases s.len() - i,
{
    let i0 = skip_ws(s, i);
    if !(0 <= i0 < s.len() && s[i0] == 34) {
        None
    } else {
        match parse_str_body(s, i0 + 1) {
            None => None,
            Some((key, j)) => {
                let j1 = skip_ws(s, j);
                if !(0 <= j1 < s.len() && s[j1] == 58) {
                    None
                } else {
                    let j2 = skip_ws(s, j1 + 1);
                    let val = if 0 <= j2 < s.len() && s[j2] == 34 {
                        match parse_str_body(s, j2 + 1) {
                            None => None,
                            Some((v, j3)) => Some((JVal::S(v), j3)),
                        }
                    } else if 0 <= j2 < s.len() && is_digit(s[j2]) {
                        match parse_digits(s, j2, 0u32) {
                            None => None,
                            Some((n, j3)) => Some((JVal::N(n), j3)),
                        }
                    } else {
                        None
                    };
                    match val {
                        None => None,
                        Some((v, j3)) => {
                            let j4 = skip_ws(s, j3);
                            if 0 <= j4 < s.len() && s[j4] == 44 {
                                if j4 + 1 <= i {
                                    None
                                } else {
                                    match parse_pairs(s, j4 + 1) {
                                        None => None,
                                        Some((rest, j5)) => Some(
                                            (seq![(key, v)] + rest, j5),
                                        ),
                                    }
                                }
                            } else if 0 <= j4 < s.len() && s[j4] == 125 {
                                Some((seq![(key, v)], j4 + 1))
                            } else {
                                None
                            }
                        },
                    }
                }
            },
        }
    }
}

/// A whole inbound envelope: one JSON object of string keys and scalar
/// values, with nothing but whitespace around it.
pub open spec fn parse_envelope(s: Seq<u8>) -> Option<Seq<(Seq<u8>, JVal)>> {
    let i0 = skip_ws(s, 0);
    if !(0 <= i0 < s.len() && s[i0] == 123) {
        None
    } else {
        let i1 = skip_ws(s, i0 + 1);
        if 0 <= i1 < s.len() && s[i1] == 125 {
            if skip_ws(s, i1 + 1) == s.len() {
                Some(Seq::empty())
            } else {
                None
            }
        } else {
            match parse_pairs(s, i0 + 1) {
                None => None,
                Some((ps, j)) => {
                    if skip_ws(s, j) == s.len() {
                        Some(ps)
                    } else {
                        None
                    }
                },
            }
        }
    }
}

/// The value under the first occurrence of a key.
pub open spec fn field_of(ps: Seq<(Seq<u8>, JVal)>, name: Seq<u8>) -> Option<JVal>
    decreases ps.len(),
{
    if ps.len() == 0 {
        None
    } else if ps[0].0 == name {
        Some(ps[0].1)
    } else {
        field_of(ps.drop_first(), name)
    }
}

/// The string under a key, where the key holds a string.
pub open spec fn str_field(ps: Seq<(Seq<u8>, JVal)>, name: Seq<u8>) -> Option<Seq<u8>> {
    match field_of(ps, name) {
        Some(JVal::S(v)) => Some(v),
        _ => None,
    }
}

/// The number under a key, where the key holds a number.
pub open spec fn num_field(ps: Seq<(Seq<u8>, JVal)>, name: Seq<u8>) -> Option<u32> {
    match field_of(ps, name) {
        Some(JVal::N(n)) => Some(n),
        _ => None,
    }
}

/// The position just past the whitespace at `i`.
fn ws_to(s: &[u8], i: usize) -> (r: usize)
    requires
        i <= s@.len(),
    ensures
        r == skip_ws(s@, i as int),
        i <= r <= s@.len(),
{
    let mut j: usize = i;
    while j < s.len() && (s[j] == 32 || s[j] == 9 || s[j] == 10 || s[j] == 13)
        invariant
            i <= j <= s@.len(),
            skip_ws(s@, i as int) == skip_ws(s@, j as int),
        decreases s@.len() - j,
    {
        j += 1;
    }
    j
}

/// The body of a string from just past its opening quote.
fn str_body_at(s: &[u8], i: usize) -> (r: Option<(Vec<u8>, usize)>)
    requires
        i <= s@.len(),
    ensures
        match r {
            Some((v, j)) => {
                &&& parse_str_body(s@, i as int) == Some((v@, j as int))
                &&& i < j <= s@.len()
            },
            None => parse_str_body(s@, i as int) is None,
        },
    decreases s@.len() - i,
{
    if i >= s.len() {
        return None;
    }
    let b = s[i];
    if b == 34 {
        return Some((Vec::new(), i + 1));
    }
    if b == 92 {
        if i + 1 >= s.len() {
            return None;
        }
        let e = s[i + 1];
        let unescaped: u8 = if e == 34 {
            34
        } else if e == 92 {
            92
        } else if e == 47 {
            47
        } else if e == 110 {
            10
        } else if e == 116 {
            9
        } else if e == 114 {
            13
        } else if e == 98 {
            8
        } else if e == 102 {
            12
        } else {
            return None;
        };
        match str_body_at(s, i + 2) {
            None => {
                return None;
            },
            Some((t, j)) => {
                let mut v = t;
                v.insert(0, unescaped);
                proof {
                    assert(v@ =~= seq![unescaped] + v@.subrange(1, v@.len() as int));
                }
                return Some((v, j));
            },
        }
    }
    match str_body_at(s, i + 1) {
        None => None,
        Some((t, j)) => {
            let mut v = t;
            v.insert(0, b);
            proof {
                assert(v@ =~= seq![b] + v@.subrange(1, v@.len() as int));
            }
            Some((v, j))
        },
    }
}

/// A run of digits from `i`, folded onto `acc`.
pub(crate) fn digits_at(s: &[u8], i: usize, acc: u32) -> (r: Option<(u32, usize)>)
    requires
        i <= s@.len(),
    ensures
        match r {
            Some((n, j)) => {
                &&& parse_digits(s@, i as int, acc) == Some((n, j as int))
                &&& i <= j <= s@.len()
            },
            None => parse_digits(s@, i as int, acc) is None,
        },
    decreases s@.len() - i,
{
    if i < s.len() && s[i] >= 48 && s[i] <= 57 {
        let d = (s[i] - 48) as u32;
        if acc > (0xFFFF_FFFFu32 - d) / 10 {
            proof {
                assert(acc * 10 + (s@[i as int] - 48) > 0xFFFF_FFFF) by (nonlinear_arith)
                    requires
                        acc > (0xFFFF_FFFFu32 - d) / 10,
                        d == s@[i as int] - 48,
                        0 <= d <= 9,
                        acc <= 0xFFFF_FFFF,
                ;
            }
            None
        } else {
            proof {
                assert(acc * 10 + (s@[i as int] - 48) <= 0xFFFF_FFFF) by (nonlinear_arith)
                    requires
                        acc <= (0xFFFF_FFFFu32 - d) / 10,
                        d == s@[i as int] - 48,
                        0 <= d <= 9,
                ;
            }
            digits_at(s, i + 1, acc * 10 + d)
        }
    } else {
        Some((acc, i))
    }
}

/// The byte views of decoded key-value pairs.
pub open spec fn pairs_view(s: Seq<(Vec<u8>, JsonVal)>) -> Seq<(Seq<u8>, JVal)> {
    s.map_values(|p: (Vec<u8>, JsonVal)| (p.0@, p.1@))
}

/// The key-value pairs of an envelope from just past the opening brace
/// or a comma.
fn pairs_at(s: &[u8], i: usize) -> (r: Option<(Vec<(Vec<u8>, JsonVal)>, usize)>)
    requires
        i <= s@.len(),
    ensures
        match r {
            Some((ps, j)) => {
                &&& parse_pairs(s@, i as int) == Some((pairs_view(ps@), j as int))
                &&& i <= j <= s@.len()
            },
            None => parse_pairs(s@, i as int) is None,
        },
    decreases s@.len() - i,
{
    let i0 = ws_to(s, i);
    if !(i0 < s.len() && s[i0] == 34) {
        return None;
    }
    let (key, j) = match str_body_at(s, i0 + 1) {
        None => {
            return None;
        },
        Some(kj) => kj,
    };
    let j1 = ws_to(s, j);
    if !(j1 < s.len() && s[j1] == 58) {
        return None;
    }
    let j2 = ws_to(s, j1 + 1);
    let (val, j3): (JsonVal, usize) = if j2 < s.len() && s[j2] == 34 {
        match str_body_at(s, j2 + 1) {
            None => {
                return None;
            },
            Some((v, j3)) => (JsonVal::S(v), j3),
        }
    } else if j2 < s.len() && s[j2] >= 48 && s[j2] <= 57 {
        match digits_at(s, j2, 0) {
            None => {
                return None;
            },
            Some((n, j3)) => (JsonVal::N(n), j3),
        }
    } else {
        return None;
    };
    let j4 = ws_to(s, j3);
    if j4 < s.len() && s[j4] == 44 {
        match pairs_at(s, j4 + 1) {
            None => {
                return None;
            },
            Some((rest, j5)) => {
                let mut ps = rest;
                ps.insert(0, (key, val));
                proof {
                    assert(pairs_view(ps@) =~= seq![(key@, val@)] + pairs_view(
                        ps@.subrange(1, ps@.len() as int),
                    ));
                }
                return Some((ps, j5));
            },
        }
    }
    if j4 < s.len() && s[j4] == 125 {
        let mut ps: Vec<(Vec<u8>, JsonVal)> = Vec::new();
        ps.push((key, val));
        proof {
            assert(pairs_view(ps@) =~= seq![(key@, val@)]);
        }
        return Some((ps, j4 + 1));
    }
    None
}

/// A whole inbound envelope.
fn envelope_of(s: &[u8]) -> (r: Option<Vec<(Vec<u8>, JsonVal)>>)
    ensures
        match r {
            Some(ps) => parse_envelope(s@) == Some(pairs_view(ps@)),
            None => parse_envelope(s@) is None,
        },
{
    let i0 = ws_to(s, 0);
    if !(i0 < s.len() && s[i0] == 123) {
        return None;
    }
    let i1 = ws_to(s, i0 + 1);
    if i1 < s.len() && s[i1] == 125 {
        if ws_to(s, i1 + 1) == s.len() {
            let ps: Vec<(Vec<u8>, JsonVal)> = Vec::new();
            proof {
                assert(pairs_view(ps@) =~= Seq::<(Seq<u8>, JVal)>::empty());
            }
            return Some(ps);
        }
        return None;
    }
    match pairs_at(s, i0 + 1) {
        None => None,
        Some((ps, j)) => {
            if ws_to(s, j) == s.len() {
                Some(ps)
            } else {
                None
            }
        },
    }
}

/// The string under a key, where the envelope has one.
fn str_field_at(ps: &Vec<(Vec<u8>, JsonVal)>, k: usize, name: &str) -> (r: Option<Vec<u8>>)
    requires
        k <= ps@.len(),
    ensures
        match r {
            Some(v) => str_field(pairs_view(ps@).skip(k as int), name.spec_bytes()) == Some(v@),
            None => str_field(pairs_view(ps@).skip(k as int), name.spec_bytes()) is None,
        },
    decreases ps@.len() - k,
{
    if k >= ps.len() {
        return None;
    }
    proof {
        assert(pairs_view(ps@).skip(k as int).drop_first() =~= pairs_view(ps@).skip(k + 1 as int));
        assert(pairs_view(ps@).skip(k as int)[0] == (ps@[k as int].0@, ps@[k as int].1@));
    }
    if crate::bytes::bytes_eq(ps[k].0.as_slice(), name.as_bytes()) {
        match &ps[k].1 {
            JsonVal::S(v) => Some(crate::bytes::copy_bytes(v)),
            JsonVal::N(_) => None,
        }
    } else {
        str_field_at(ps, k + 1, name)
    }
}

/// The number under a key, where the envelope has one.
fn num_field_at(ps: &Vec<(Vec<u8>, JsonVal)>, k: usize, name: &str) -> (r: Option<u32>)
    requires
        k <= ps@.len(),
    ensures
        match r {
            Some(n) => num_field(pairs_view(ps@).skip(k as int), name.spec_bytes()) == Some(n),
            None => num_field(pairs_view(ps@).skip(k as int), name.spec_bytes()) is None,
        },
    decreases ps@.len() - k,
{
    if k >= ps.len() {
        return None;
    }
    proof {
        assert(pairs_view(ps@).skip(k as int).drop_first() =~= pairs_view(ps@).skip(k + 1 as int));
        assert(pairs_view(ps@).skip(k as int)[0] == (ps@[k as int].0@, ps@[k as int].1@));
    }
    if crate::bytes::bytes_eq(ps[k].0.as_slice(), name.as_bytes()) {
        match &ps[k].1 {
            JsonVal::N(n) => Some(*n),
            JsonVal::S(_) => None,
        }
    } else {
        num_field_at(ps, k + 1, name)
    }
}

/// The moderator command an inbound frame denotes, or why it is
/// rejected: a frame that is not a well-formed envelope, or lacks a
/// string `cmd`, or lacks an argument of the right type, is
/// `MalformedCommand`; an envelope whose `cmd` names no moderator
/// command is `UnknownCommand`.
pub open spec fn spec_decode_master(s: Seq<u8>) -> Result<
    crate::command::MasterCmdV,
    crate::RoomError,
> {
    match parse_envelope(s) {
        None => Err(crate::RoomError::MalformedCommand),
        Some(ps) => match str_field(ps, "cmd".spec_bytes()) {
            None => Err(crate::RoomError::MalformedCommand),
            Some(c) => {
                if c == "Start".spec_bytes() {
                    Ok(crate::command::MasterCmdV::Start)
                } else if c == "Finish".spec_bytes() {
                    Ok(crate::command::MasterCmdV::Finish)
                } else if c == "ExtraTime".spec_bytes() {
                    match num_field(ps, "seconds".spec_bytes()) {
                        Some(n) => Ok(crate::command::MasterCmdV::ExtraTime { seconds: n }),
                        None => Err(crate::RoomError::MalformedCommand),
                    }
                } else if c == "CloseRoom".spec_bytes() {
                    Ok(crate::command::MasterCmdV::CloseRoom)
                } else if c == "CreateGroup".spec_bytes() {
                    Ok(crate::command::MasterCmdV::CreateGroup)
                } else if c == "SetGroupName".spec_bytes() {
                    match (num_field(ps, "group".spec_bytes()), str_field(
                        ps,
                        "name".spec_bytes(),
                    )) {
                        (Some(g), Some(n)) => Ok(
                            crate::command::MasterCmdV::SetGroupName { group: g, name: n },
                        ),
                        _ => Err(crate::RoomError::MalformedCommand),
                    }
                } else if c == "SetGroupColor".spec_bytes() {
                    match (num_field(ps, "group".spec_bytes()), str_field(
                        ps,
                        "color".spec_bytes(),
                    )) {
                        (Some(g), Some(n)) => Ok(
                            crate::command::MasterCmdV::SetGroupColor { group: g, color: n },
                        ),
                        _ => Err(crate::RoomError::MalformedCommand),
                    }
                } else if c == "RemoveGroup".spec_bytes() {
                    match num_field(ps, "group".spec_bytes()) {
                        Some(g) => Ok(crate::command::MasterCmdV::RemoveGroup { group: g }),
                        None => Err(crate::RoomError::MalformedCommand),
                    }
                } else if c == "SetTime".spec_bytes() {
                    match num_field(ps, "seconds".spec_bytes()) {
                        Some(n) => Ok(crate::command::MasterCmdV::SetTime { seconds: n }),
                        None => Err(crate::RoomError::MalformedCommand),
                    }
                } else if c == "SetQuestions".spec_bytes() {
                    match str_field(ps, "questions".spec_bytes()) {
                        Some(q) => Ok(crate::command::MasterCmdV::SetQuestions { questions: q }),
                        None => Err(crate::RoomError::MalformedCommand),
                    }
                } else if c == "Kick".spec_bytes() {
                    match num_field(ps, "sckid".spec_bytes()) {
                        Some(k) => Ok(crate::command::MasterCmdV::Kick { sckid: k }),
                        None => Err(crate::RoomError::MalformedCommand),
                    }
                } else {
                    Err(crate::RoomError::UnknownCommand)
                }
            },
        },
    }
}

/// The member command an inbound frame denotes, or why it is rejected,
/// under the same rules as for the moderator.
pub open spec fn spec_decode_member(s: Seq<u8>) -> Result<
    crate::command::MemberCmdV,
    crate::RoomError,
> {
    match parse_envelope(s) {
        None => Err(crate::RoomError::MalformedCommand),
        Some(ps) => match str_field(ps, "cmd".spec_bytes()) {
            None => Err(crate::RoomError::MalformedCommand),
            Some(c) => {
                if c == "SetName".spec_bytes() {
                    match str_field(ps, "name".spec_bytes()) {
                        Some(n) => Ok(crate::command::MemberCmdV::SetName { name: n }),
                        None => Err(crate::RoomError::MalformedCommand),
                    }
                } else if c == "SetGroup".spec_bytes() {
                    match num_field(ps, "group".spec_bytes()) {
                        Some(g) => Ok(crate::command::MemberCmdV::SetGroup { group: g }),
                        None => Err(crate::RoomError::MalformedCommand),
                    }
                } else if c == "Answer".spec_bytes() {
                    match (num_field(ps, "question".spec_bytes()), num_field(
                        ps,
                        "answer".spec_bytes(),
                    )) {
                        (Some(q), Some(a)) => Ok(
                            crate::command::MemberCmdV::Answer { question: q, answer: a },
                        ),
                        _ => Err(crate::RoomError::MalformedCommand),
                    }
                } else {
                    Err(crate::RoomError::UnknownCommand)
                }
            },
        },
    }
}

/// Decodes one inbound moderator frame.
#[verifier::rlimit(50)]
pub fn decode_master(s: &[u8]) -> (r: Result<crate::command::MasterCommand, crate::RoomError>)
    ensures
        match r {
            Ok(c) => spec_decode_master(s@) == Ok::<_, crate::RoomError>(c@),
            Err(e) => spec_decode_master(s@) == Err::<crate::command::MasterCmdV, _>(e),
        },
{
    let ps = match envelope_of(s) {
        None => {
            return Err(crate::RoomError::MalformedCommand);
        },
        Some(ps) => ps,
    };
    proof {
        assert(pairs_view(ps@).skip(0) =~= pairs_view(ps@));
    }
    let c = match str_field_at(&ps, 0, "cmd") {
        None => {
            return Err(crate::RoomError::MalformedCommand);
        },
        Some(c) => c,
    };
    if crate::bytes::bytes_eq(c.as_slice(), "Start".as_bytes()) {
        Ok(crate::command::MasterCommand::Start)
    } else if crate::bytes::bytes_eq(c.as_slice(), "Finish".as_bytes()) {
        Ok(crate::command::MasterCommand::Finish)
    } else if crate::bytes::bytes_eq(c.as_slice(), "ExtraTime".as_bytes()) {
        match num_field_at(&ps, 0, "seconds") {
            Some(n) => Ok(crate::command::MasterCommand::ExtraTime { seconds: n }),
            None => Err(crate::RoomError::MalformedCommand),
        }
    } else if crate::bytes::bytes_eq(c.as_slice(), "CloseRoom".as_bytes()) {
        Ok(crate::command::MasterCommand::CloseRoom)
    } else if crate::bytes::bytes_eq(c.as_slice(), "CreateGroup".as_bytes()) {
        Ok(crate::command::MasterCommand::CreateGroup)
    } else if crate::bytes::bytes_eq(c.as_slice(), "SetGroupName".as_bytes()) {
        match (num_field_at(&ps, 0, "group"), str_field_at(&ps, 0, "name")) {
            (Some(g), Some(n)) => Ok(
                crate::command::MasterCommand::SetGroupName { group: g, name: n },
            ),
            _ => Err(crate::RoomError::MalformedCommand),
        }
    } else if crate::bytes::bytes_eq(c.as_slice(), "SetGroupColor".as_bytes()) {
        match (num_field_at(&ps, 0, "group"), str_field_at(&ps, 0, "color")) {
            (Some(g), Some(n)) => Ok(
                crate::command::MasterCommand::SetGroupColor { group: g, color: n },
            ),
            _ => Err(crate::RoomError::MalformedCommand),
        }
    } else if crate::bytes::bytes_eq(c.as_slice(), "RemoveGroup".as_bytes()) {
        match num_field_at(&ps, 0, "group") {
            Some(g) => Ok(crate::command::MasterCommand::RemoveGroup { group: g }),
            None => Err(crate::RoomError::MalformedCommand),
        }
    } else if crate::bytes::bytes_eq(c.as_slice(), "SetTime".as_bytes()) {
        match num_field_at(&ps, 0, "seconds") {
            Some(n) => Ok(crate::command::MasterCommand::SetTime { seconds: n }),
            None => Err(crate::RoomError::MalformedCommand),
        }
    } else if crate::bytes::bytes_eq(c.as_slice(), "SetQuestions".as_bytes()) {
        match str_field_at(&ps, 0, "questions") {
            Some(q) => Ok(crate::command::MasterCommand::SetQuestions { questions: q }),
            None => Err(crate::RoomError::MalformedCommand),
        }
    } else if crate::bytes::bytes_eq(c.as_slice(), "Kick".as_bytes()) {
        match num_field_at(&ps, 0, "sckid") {
            Some(k) => Ok(crate::command::MasterCommand::Kick { sckid: k }),
            None => Err(crate::RoomError::MalformedCommand),
        }
    } else {
        Err(crate::RoomError::UnknownCommand)
    }
}

/// Decodes one inbound member frame.
pub fn decode_member(s: &[u8]) -> (r: Result<crate::command::MemberCommand, crate::RoomError>)
    ensures
        match r {
            Ok(c) => spec_decode_member(s@) == Ok::<_, crate::RoomError>(c@),
            Err(e) => spec_decode_member(s@) == Err::<crate::command::MemberCmdV, _>(e),
        },
{
    let ps = match envelope_of(s) {
        None => {
            return Err(crate::RoomError::MalformedCommand);
        },
        Some(ps) => ps,
    };
    proof {
        assert(pairs_view(ps@).skip(0) =~= pairs_view(ps@));
    }
    let c = match str_field_at(&ps, 0, "cmd") {
        None => {
            return Err(crate::RoomError::MalformedCommand);
        },
        Some(c) => c,
    };
    if crate::bytes::bytes_eq(c.as_slice(), "SetName".as_bytes()) {
        match str_field_at(&ps, 0, "name") {
            Some(n) => Ok(crate::command::MemberCommand::SetName { name: n }),
            None => Err(crate::RoomError::MalformedCommand),
        }
    } else if crate::bytes::bytes_eq(c.as_slice(), "SetGroup".as_bytes()) {
        match num_field_at(&ps, 0, "group") {
            Some(g) => Ok(crate::command::MemberCommand::SetGroup { group: g }),
            None => Err(crate::RoomError::MalformedCommand),
        }
    } else if crate::bytes::bytes_eq(c.as_slice(), "Answer".as_bytes()) {
        match (num_field_at(&ps, 0, "question"), num_field_at(&ps, 0, "answer")) {
            (Some(q), Some(a)) => Ok(crate::command::MemberCommand::Answer { question: q, answer: a }),
            _ => Err(crate::RoomError::MalformedCommand),
        }
    } else {
        Err(crate::RoomError::UnknownCommand)
    }
}

} // verus!
