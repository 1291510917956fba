//! Slug derivation: a URL-safe identifier computed from a food
//! description by lower-casing, folding letters to ASCII and replacing
//! every run of other characters with a single `-`.

use vstd::prelude::*;
use crate::text::lower_char;

verus! {

/// Folded form of one character: `Some(c)` keeps the (lower-cased,
/// ASCII-folded) character, `None` marks a separator.  Letters of the
/// Turkish alphabet fold to their nearest English ASCII letter.
pub open spec fn fold_char(c: char) -> Option<char> {
    if ('a' <= c && c <= 'z') || ('0' <= c && c <= '9') {
        Some(c)
    } else if 'A' <= c && c <= 'Z' {
        Some(lower_char(c))
    } else if c == '\u{00E7}' || c == '\u{00C7}' {  // c-cedilla
        Some('c')
    } else if c == '\u{011F}' || c == '\u{011E}' {  // g-breve
        Some('g')
    } else if c == '\u{0131}' || c == '\u{0130}' {  // dotless i, dotted I
        Some('i')
    } else if c == '\u{00F6}' || c == '\u{00D6}' {  // o-diaeresis
        Some('o')
    } else if c == '\u{015F}' || c == '\u{015E}' {  // s-cedilla
        Some('s')
    } else if c == '\u{00FC}' || c == '\u{00DC}' {  // u-diaeresis
        Some('u')
    } else {
        None
    }
}

/// Slug of the remainder `s`.  `emitted` records whether a kept
/// character has been written already, `pending` whether a separator
/// has been seen since then; a `-` is written only between two kept
/// characters, so the slug never begins or ends with `-`.
pub open spec fn slug_from(s: Seq<char>, emitted: bool, pending: bool) -> Seq<char>
    decreases s.len(),
{
    if s.len() == 0 {
        Seq::empty()
    } else {
        match fold_char(s[0]) {
            Some(c) => (if emitted && pending {
                seq!['-', c]
            } else {
                seq![c]
            }) + slug_from(s.drop_first(), true, false),
            None => slug_from(s.drop_first(), emitted, true),
        }
    }
}

/// The slug derived from a description.
pub open spec fn slug_of(s: Seq<char>) -> Seq<char> {
    slug_from(s, false, false)
}

/// Executable fold of one character.
fn fold_char_exec(c: char) -> (r: Option<char>)
    ensures
        r == fold_char(c),
{
    let u = c as u32;
    if (97 <= u && u <= 122) || (48 <= u && u <= 57) {
        Some(c)
    } else if 65 <= u && u <= 90 {
        Some(crate::text::lower_char_exec(c))
    } else if c == '\u{00E7}' || c == '\u{00C7}' {
        Some('c')
    } else if c == '\u{011F}' || c == '\u{011E}' {
        Some('g')
    } else if c == '\u{0131}' || c == '\u{0130}' {
        Some('i')
    } else if c == '\u{00F6}' || c == '\u{00D6}' {
        Some('o')
    } else if c == '\u{015F}' || c == '\u{015E}' {
        Some('s')
    } else if c == '\u{00FC}' || c == '\u{00DC}' {
        Some('u')
    } else {
        None
    }
}

/// Derives the slug of a description.
pub fn to_lower_en_kebab_case(s: &str) -> (r: String)
    ensures
        r@ == slug_of(s@),
{
    let cs = crate::text::chars_of(s);
    let n = cs.len();
    let mut out: Vec<char> = Vec::new();
    let mut emitted = false;
    let mut pending = false;
    let mut i: usize = 0;
    proof {
        assert(s@.skip(0) =~= s@);
        assert(out@ + slug_from(s@, false, false) =~= slug_from(s@, false, false));
    }
    while i < n
        invariant
            n == cs@.len(),
            cs@ == s@,
            i <= n,
            slug_of(s@) == out@ + slug_from(s@.skip(i as int), emitted, pending),
        decreases n - i,
    {
        proof {
            assert(s@.skip(i as int).drop_first() =~= s@.skip(i + 1));
            assert(s@.skip(i as int)[0] == s@[i as int]);
        }
        match fold_char_exec(cs[i]) {
            Some(c) => {
                let ghost prev = out@;
                let ghost pre: Seq<char> = if emitted && pending {
                    seq!['-', c]
                } else {
                    seq![c]
                };
                let ghost rest = slug_from(s@.skip(i + 1), true, false);
                if emitted && pending {
                    out.push('-');
                    out.push(c);
                } else {
                    out.push(c);
                }
                proof {
                    assert(out@ =~= prev + pre);
                    assert(prev + (pre + rest) =~= (prev + pre) + rest);
                }
                emitted = true;
                pending = false;
            },
            None => {
                pending = true;
            },
        }
        i += 1;
    }
    proof {
        assert(s@.skip(n as int) =~= Seq::<char>::empty());
        assert(out@ + Seq::<char>::empty() =~= out@);
    }
    crate::text::string_from_chars(&out)
}

} // verus!
