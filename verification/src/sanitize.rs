//! Input sanitation for query strings and path parameters: a
//! defense-in-depth rejection of SQL and path meta-characters, and the
//! fixed size bounds of the HTTP surface.

use vstd::prelude::*;
use crate::error::ApiError;
use crate::text::{all_space, contains_seq, chars_of, all_space_exec, contains_exec};

verus! {

/// A query string is acceptable when it contains none of the SQL and
/// path meta-characters (`..`, `/`, `\`, NUL, `;`, `*`, `--`, `/*`,
/// `*/`, single or double quote) and is not empty after trimming
/// ASCII whitespace.  The two-character comment markers are listed
/// for completeness; the single characters already cover them.
pub open spec fn sanitize_ok(s: Seq<char>) -> bool {
    &&& !contains_seq(s, seq!['.', '.'])
    &&& !contains_seq(s, seq!['/'])
    &&& !contains_seq(s, seq!['\\'])
    &&& !contains_seq(s, seq!['\0'])
    &&& !contains_seq(s, seq![';'])
    &&& !contains_seq(s, seq!['*'])
    &&& !contains_seq(s, seq!['-', '-'])
    &&& !contains_seq(s, seq!['/', '*'])
    &&& !contains_seq(s, seq!['*', '/'])
    &&& !contains_seq(s, seq!['\''])
    &&& !contains_seq(s, seq!['"'])
    &&& !all_space(s)
}

/// A one-character needle.
fn pat1(a: char) -> (r: Vec<char>)
    ensures
        r@ == seq![a],
{
    let mut v: Vec<char> = Vec::new();
    v.push(a);
    proof {
        assert(v@ =~= seq![a]);
    }
    v
}

/// A two-character needle.
fn pat2(a: char, b: char) -> (r: Vec<char>)
    ensures
        r@ == seq![a, b],
{
    let mut v: Vec<char> = Vec::new();
    v.push(a);
    v.push(b);
    proof {
        assert(v@ =~= seq![a, b]);
    }
    v
}

/// Checks a query string against [`sanitize_ok`]; a rejection is a
/// 400 with a fixed message.
pub fn sanitize_input(s: &str) -> (r: Result<(), ApiError>)
    ensures
        r is Ok <==> sanitize_ok(s@),
        r matches Err(e) ==> e.status == 400,
{
    let cs = chars_of(s);
    let bad = contains_exec(&cs, &pat2('.', '.')) || contains_exec(&cs, &pat1('/'))
        || contains_exec(&cs, &pat1('\\')) || contains_exec(&cs, &pat1('\0')) || contains_exec(
        &cs,
        &pat1(';'),
    ) || contains_exec(&cs, &pat1('*')) || contains_exec(&cs, &pat2('-', '-')) || contains_exec(
        &cs,
        &pat2('/', '*'),
    ) || contains_exec(&cs, &pat2('*', '/')) || contains_exec(&cs, &pat1('\'')) || contains_exec(
        &cs,
        &pat1('"'),
    ) || all_space_exec(&cs);
    if bad {
        Err(ApiError::new(400, "Sorgu ge\u{00E7}ersiz karakterler i\u{00E7}eriyor"))
    } else {
        Ok(())
    }
}

/// The byte length of a string: the length of its UTF-8 encoding, as
/// a machine word measures it.
pub open spec fn byte_len(s: Seq<char>) -> int {
    (vstd::utf8::encode_utf8(s).len() as usize) as int
}

/// A slug path parameter is acceptable when its byte length is between
/// 1 and 100.
pub open spec fn slug_len_ok(s: Seq<char>) -> bool {
    1 <= byte_len(s) <= 100
}

/// Checks the length bounds of a slug path parameter.
pub fn slug_len_check(s: &str) -> (r: bool)
    ensures
        r == slug_len_ok(s@),
{
    let n = s.len();
    1 <= n && n <= 100
}

/// The fixed size of the search parameter struct itself, counted into
/// the serialized parameter budget: three machine words for the query
/// string, three for the optional mode, two for the optional limit.
pub const SEARCH_PARAMS_BASE_BYTES: usize = 64;

/// The serialized size of a search parameter set: the fixed struct
/// size plus the byte lengths of the query and the mode.
pub open spec fn search_params_size(q: Seq<char>, mode: Option<Seq<char>>) -> int {
    SEARCH_PARAMS_BASE_BYTES + byte_len(q) + (match mode {
        Some(m) => byte_len(m),
        None => 0,
    })
}

} // verus!
