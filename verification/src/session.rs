//! Session-token helpers around the engine: the cookie that carries
//! `code:slot`, its parser, and the listen-address parser of the server
//! configuration.

use vstd::prelude::*;

use crate::bytes::{dec_of, push_dec, push_str_bytes};
use crate::codec::{is_digit, parse_digits};

verus! {

use vstd::string::StringSliceAdditionalSpecFns;

/// The bytes of the session cookie carrying `code:slot`: an hour-long,
/// site-wide `session` cookie.
pub open spec fn cookie_bytes(room: Seq<u8>, sckid: u32) -> Seq<u8> {
    "session=".spec_bytes() + room + ":".spec_bytes() + dec_of(sckid as nat)
        + "; max-age=3600; path=/;".spec_bytes()
}

/// The session cookie for one room code and slot.  Room codes are three
/// ASCII letters, so the cookie is ASCII too.
pub fn set_cookie(room: &str, sckid: u32) -> (r: String)
    requires
        room.is_ascii(),
    ensures
        vstd::utf8::encode_utf8(r@) == cookie_bytes(room.spec_bytes(), sckid),
{
    let mut out: Vec<u8> = Vec::new();
    push_str_bytes(&mut out, "session=");
    push_str_bytes(&mut out, room);
    push_str_bytes(&mut out, ":");
    push_dec(&mut out, sckid);
    push_str_bytes(&mut out, "; max-age=3600; path=/;");
    proof {
        assert(out@ =~= cookie_bytes(room.spec_bytes(), sckid));
        let p1 = "session=".spec_bytes();
        let p2 = room.spec_bytes();
        let p3 = ":".spec_bytes();
        let p4 = dec_of(sckid as nat);
        let p5 = "; max-age=3600; path=/;".spec_bytes();
        vstd::utf8::encode_utf8_valid_utf8("session="@);
        vstd::utf8::encode_utf8_valid_utf8(room@);
        vstd::utf8::encode_utf8_valid_utf8(":"@);
        vstd::utf8::encode_utf8_valid_utf8("; max-age=3600; path=/;"@);
        lemma_dec_of_digits(sckid as nat);
        crate::bytes::lemma_ascii_bytes_valid(p4);
        vstd::utf8::valid_utf8_concat(p1, p2);
        vstd::utf8::valid_utf8_concat(p1 + p2, p3);
        vstd::utf8::valid_utf8_concat(p1 + p2 + p3, p4);
        vstd::utf8::valid_utf8_concat(p1 + p2 + p3 + p4, p5);
        assert(out@ =~= p1 + p2 + p3 + p4 + p5);
    }
    crate::state::utf8_to_string(out)
}

/// Decimal digits are ASCII.
pub proof fn lemma_dec_of_digits(n: nat)
    ensures
        forall|i: int| 0 <= i < dec_of(n).len() ==> 48 <= #[trigger] dec_of(n)[i] <= 57,
    decreases n,
{
    if n < 10 {
        assert(dec_of(n) =~= seq![(48 + n) as u8]);
    } else {
        lemma_dec_of_digits(n / 10);
        assert(dec_of(n) == dec_of(n / 10).push((48 + n % 10) as u8));
        assert forall|i: int| 0 <= i < dec_of(n).len() implies 48 <= #[trigger] dec_of(n)[i]
            <= 57 by {
            if i < dec_of(n / 10).len() {
                assert(dec_of(n)[i] == dec_of(n / 10)[i]);
            } else {
                assert(dec_of(n)[i] == (48 + n % 10) as u8);
            }
        }
    }
}

/// The cookie value that drops a session.
pub fn unset_cookie() -> (r: &'static str)
    ensures
        r@ == "session=; max-age=0; path=/;"@,
{
    "session=; max-age=0; path=/;"
}

/// The first position of a colon byte at or after `i`.
pub open spec fn colon_at(s: Seq<u8>, i: int) -> Option<int>
    decreases s.len() - i,
{
    if !(0 <= i < s.len()) {
        None
    } else if s[i] == 58 {
        Some(i)
    } else {
        colon_at(s, i + 1)
    }
}

/// What a session cookie value denotes: the bytes before the first
/// colon are the room code, the bytes after it are the slot — decimal
/// digits after an optional plus sign, filling the rest of the value,
/// as an unsigned integer parse takes them.
pub open spec fn session_spec(s: Seq<u8>) -> Option<(Seq<u8>, u32)> {
    match colon_at(s, 0) {
        None => None,
        Some(c) => {
            let d = if c + 1 < s.len() && s[c + 1] == 43 {
                c + 2
            } else {
                c + 1
            };
            if d < s.len() && is_digit(s[d]) {
                match parse_digits(s, d, 0u32) {
                    Some((v, j)) => {
                        if j == s.len() {
                            Some((s.subrange(0, c), v))
                        } else {
                            None
                        }
                    },
                    None => None,
                }
            } else {
                None
            }
        },
    }
}

/// Splits a session token into its room code and slot, where it has the
/// `code:slot` shape; any other value means no session.
pub fn parse_session(session: &str) -> (r: Option<(String, u32)>)
    ensures
        match r {
            Some((room, sckid)) => session_spec(session.spec_bytes()) == Some(
                (vstd::utf8::encode_utf8(room@), sckid),
            ),
            None => session_spec(session.spec_bytes()) is None,
        },
{
    let bytes = session.as_bytes();
    let mut c: usize = 0;
    while c < bytes.len() && bytes[c] != 58
        invariant
            c <= bytes@.len(),
            bytes@ == session.spec_bytes(),
            colon_at(bytes@, 0) == colon_at(bytes@, c as int),
        decreases bytes@.len() - c,
    {
        c += 1;
    }
    if c >= bytes.len() {
        return None;
    }
    proof {
        assert(colon_at(bytes@, c as int) == Some(c as int));
    }
    let d = if c + 1 < bytes.len() && bytes[c + 1] == 43 {
        c + 2
    } else {
        c + 1
    };
    if d >= bytes.len() || !(bytes[d] >= 48 && bytes[d] <= 57) {
        return None;
    }
    let (value, j) = match crate::codec::digits_at(bytes, d, 0) {
        Some(vj) => vj,
        None => {
            return None;
        },
    };
    if j != bytes.len() {
        return None;
    }
    proof {
        vstd::utf8::encode_utf8_valid_utf8(session@);
        vstd::utf8::is_char_boundary_iff_not_is_continuation_byte(
            session.spec_bytes(),
            c as int,
        );
        assert(vstd::utf8::is_char_boundary(session.spec_bytes(), c as int));
    }
    let pieces = session.split_at(c);
    Some((pieces.0.to_owned(), value))
}

/// The value of one dotted-decimal part of a listen address: plain
/// digits whose value fits a byte.
pub open spec fn ip_spec(s: Seq<u8>) -> Option<(u8, u8, u8, u8)> {
    if s.len() == 0 {
        Some((0u8, 0u8, 0u8, 0u8))
    } else {
        match ip_part(s, 0) {
            None => None,
            Some((v1, i1)) => {
                if !(i1 < s.len() && s[i1] == 46) {
                    None
                } else {
                    match ip_part(s, i1 + 1) {
                        None => None,
                        Some((v2, i2)) => {
                            if !(i2 < s.len() && s[i2] == 46) {
                                None
                            } else {
                                match ip_part(s, i2 + 1) {
                                    None => None,
                                    Some((v3, i3)) => {
                                        if !(i3 < s.len() && s[i3] == 46) {
                                            None
                                        } else {
                                            match ip_part(s, i3 + 1) {
                                                None => None,
                                                Some((v4, i4)) => {
                                                    if i4 == s.len() {
                                                        Some((v1, v2, v3, v4))
                                                    } else {
                                                        None
                                                    }
                                                },
                                            }
                                        }
                                    },
                                }
                            }
                        },
                    }
                }
            },
        }
    }
}

/// One dotted-decimal part starting at `i`: a nonempty digit run after
/// an optional plus sign, with a value of at most 255, as an unsigned
/// integer parse takes it.
pub open spec fn ip_part(s: Seq<u8>, i: int) -> Option<(u8, int)> {
    let d = if 0 <= i < s.len() && s[i] == 43 {
        i + 1
    } else {
        i
    };
    if !(0 <= d < s.len() && is_digit(s[d])) {
        None
    } else {
        match parse_digits(s, d, 0u32) {
            None => None,
            Some((v, j)) => {
                if v <= 255 {
                    Some(((v as u8), j))
                } else {
                    None
                }
            },
        }
    }
}

fn ip_part_at(s: &[u8], i: usize) -> (r: Option<(u8, usize)>)
    requires
        i <= s@.len(),
    ensures
        match r {
            Some((v, j)) => ip_part(s@, i as int) == Some((v, j as int)) && i <= j <= s@.len(),
            None => ip_part(s@, i as int) is None,
        },
{
    let d = if i < s.len() && s[i] == 43 {
        i + 1
    } else {
        i
    };
    if !(d < s.len() && s[d] >= 48 && s[d] <= 57) {
        return None;
    }
    match crate::codec::digits_at(s, d, 0) {
        None => None,
        Some((v, j)) => {
            if v <= 255 {
                Some(((v as u8), j))
            } else {
                None
            }
        },
    }
}

/// Parses a dotted-decimal listen address; the empty string means the
/// unspecified address.  Each of the four parts is a plain digit run
/// whose value fits a byte.
pub fn parse_ip(ip: &str) -> (r: Option<[u8; 4]>)
    ensures
        match r {
            Some(a) => ip_spec(ip.spec_bytes()) == Some((a[0], a[1], a[2], a[3])),
            None => ip_spec(ip.spec_bytes()) is None,
        },
{
    let s = ip.as_bytes();
    if s.len() == 0 {
        return Some([0, 0, 0, 0]);
    }
    let (v1, i1) = match ip_part_at(s, 0) {
        Some(x) => x,
        None => {
            return None;
        },
    };
    if !(i1 < s.len() && s[i1] == 46) {
        return None;
    }
    let (v2, i2) = match ip_part_at(s, i1 + 1) {
        Some(x) => x,
        None => {
            return None;
        },
    };
    if !(i2 < s.len() && s[i2] == 46) {
        return None;
    }
    let (v3, i3) = match ip_part_at(s, i2 + 1) {
        Some(x) => x,
        None => {
            return None;
        },
    };
    if !(i3 < s.len() && s[i3] == 46) {
        return None;
    }
    let (v4, i4) = match ip_part_at(s, i3 + 1) {
        Some(x) => x,
        None => {
            return None;
        },
    };
    if i4 != s.len() {
        return None;
    }
    Some([v1, v2, v3, v4])
}

} // verus!
