//! The error shape of the HTTP surface: a status code and a message
//! from a fixed catalog, serialized as a small JSON object.

use vstd::prelude::*;

verus! {

/// An error response: HTTP status code plus a human-readable message.
#[derive(Clone, Debug, PartialEq)]
pub struct ApiError {
    pub status: u16,
    pub message: String,
}

impl ApiError {
    /// Builds an error with the given status and message.
    pub fn new(status: u16, message: &str) -> (r: ApiError)
        ensures
            r.status == status,
            r.message@ == message@,
    {
        ApiError { status: status, message: message.to_owned() }
    }
}

/// The decimal digit character for `d`.
pub open spec fn digit_char(d: int) -> char {
    ((d + 48) as u32) as char
}

/// The decimal representation of a non-negative number.
pub open spec fn dec_str(n: int) -> Seq<char>
    decreases n,
{
    if n < 0 {
        Seq::empty()
    } else if n < 10 {
        seq![digit_char(n)]
    } else {
        dec_str(n / 10).push(digit_char(n % 10))
    }
}

/// Appends the decimal representation of `n` to `out`.
fn push_dec(n: u16, out: &mut Vec<char>)
    ensures
        final(out)@ == old(out)@ + dec_str(n as int),
    decreases n,
{
    if n < 10 {
        let c = ((n as u8) + 48) as char;
        proof {
            assert(c == digit_char(n as int));
        }
        out.push(c);
        proof {
            assert(final(out)@ =~= old(out)@ + dec_str(n as int));
        }
    } else {
        push_dec(n / 10, out);
        let ghost mid = out@;
        let c = (((n % 10) as u8) + 48) as char;
        proof {
            assert(c == digit_char((n % 10) as int));
        }
        out.push(c);
        proof {
            assert(final(out)@ =~= old(out)@ + dec_str(n as int));
        }
    }
}

/// The message contains no character that would need escaping inside
/// a JSON string.
pub open spec fn json_safe(msg: Seq<char>) -> bool {
    forall|i: int|
        0 <= i < msg.len() ==> msg[i] != '"' && msg[i] != '\\' && (msg[i] as u32) >= 32
}

/// The serialized error body `{"status":N,"message":"..."}`.
pub open spec fn json_error_body_of(status: int, msg: Seq<char>) -> Seq<char> {
    "{\"status\":"@ + dec_str(status) + ",\"message\":\""@ + msg + "\"}"@
}

/// Serializes an error as its JSON wire body.
pub fn json_error_body(status: u16, message: &str) -> (r: String)
    requires
        json_safe(message@),
    ensures
        r@ == json_error_body_of(status as int, message@),
{
    let mut digits: Vec<char> = Vec::new();
    push_dec(status, &mut digits);
    let dec = crate::text::string_from_chars(&digits);
    let mut r = "{\"status\":".to_owned();
    r.append(dec.as_str());
    r.append(",\"message\":\"");
    r.append(message);
    r.append("\"}");
    proof {
        assert(r@ =~= json_error_body_of(status as int, message@));
    }
    r
}

} // verus!
