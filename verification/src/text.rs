//! Character and string utilities shared by the slug builder, the
//! sanitizer, the ranker and the search routines.

use vstd::prelude::*;

verus! {

use vstd::std_specs::iter::IteratorSpec;

broadcast use vstd::string::group_string_axioms, vstd::seq_lib::group_to_multiset_ensures;

/// ASCII lower-casing of a single character; every other character is
/// left unchanged.  This matches the case folding that an embedded
/// SQL store applies in `LOWER` and `LIKE`, which fold ASCII only.
pub open spec fn lower_char(c: char) -> char {
    if 'A' <= c && c <= 'Z' {
        ((c as u32) + 32) as char
    } else {
        c
    }
}

/// ASCII lower-casing of a character sequence.
pub open spec fn lower(s: Seq<char>) -> Seq<char> {
    s.map_values(|c: char| lower_char(c))
}

/// Executable ASCII lower-casing of one character.
pub fn lower_char_exec(c: char) -> (r: char)
    ensures
        r == lower_char(c),
{
    let u = c as u32;
    if 65 <= u && u <= 90 {
        let l = (u + 32) as u8;
        proof {
            vstd::utf8::char_is_scalar(c);
        }
        l as char
    } else {
        c
    }
}

/// Collects the characters of a string slice into a vector.
pub fn chars_of(s: &str) -> (r: Vec<char>)
    ensures
        r@ == s@,
{
    let mut r: Vec<char> = Vec::new();
    let mut it = s.chars();
    loop
        invariant
            it.obeys_prophetic_iter_laws(),
            it.decrease() is Some,
            s@ == r@ + it.remaining(),
        ensures
            s@ == r@,
        decreases it.decrease()->0,
    {
        match it.next() {
            Some(c) => {
                proof {
                    assert(s@ =~= (r@.push(c)) + it.remaining());
                }
                r.push(c);
            },
            None => {
                proof {
                    assert(s@ =~= r@);
                }
                break ;
            },
        }
    }
    r
}

/// Relies on `String::from_iter` over `char`: the resulting string holds
/// exactly the characters of the iterator, in order.
#[verifier::external_body]
pub fn string_from_chars(v: &Vec<char>) -> (r: String)
    ensures
        r@ == v@,
{
    v.iter().collect()
}

/// Executable ASCII lower-casing of a whole string.
pub fn lower_string(s: &str) -> (r: String)
    ensures
        r@ == lower(s@),
{
    let cs = chars_of(s);
    let mut out: Vec<char> = Vec::new();
    let n = cs.len();
    let mut i: usize = 0;
    while i < n
        invariant
            n == cs.len(),
            i <= n,
            cs@ == s@,
            out@ == lower(s@.take(i as int)),
        decreases n - i,
    {
        out.push(lower_char_exec(cs[i]));
        proof {
            assert(s@.take(i + 1 as int).map_values(|c: char| lower_char(c)) =~= s@.take(
                i as int,
            ).map_values(|c: char| lower_char(c)).push(lower_char(s@[i as int])));
        }
        i += 1;
    }
    proof {
        assert(s@.take(n as int) =~= s@);
    }
    string_from_chars(&out)
}

/// The needle `q` occurs in `d` at position `i`.
pub open spec fn matches_at(d: Seq<char>, q: Seq<char>, i: int) -> bool {
    0 <= i && i + q.len() <= d.len() && d.subrange(i, i + q.len()) == q
}

/// `d` begins with `q`.
pub open spec fn starts_with(d: Seq<char>, q: Seq<char>) -> bool {
    matches_at(d, q, 0)
}

/// `q` occurs somewhere in `d`.
pub open spec fn contains_seq(d: Seq<char>, q: Seq<char>) -> bool {
    exists|i: int| matches_at(d, q, i)
}

/// Position of the first occurrence of `q` in `d` at or after `i`,
/// or -1 if there is none.
pub open spec fn first_match_from(d: Seq<char>, q: Seq<char>, i: nat) -> int
    decreases d.len() + 1 - i when i <= d.len() + 1
{
    if i + q.len() > d.len() {
        -1
    } else if matches_at(d, q, i as int) {
        i as int
    } else {
        first_match_from(d, q, i + 1)
    }
}

/// Position of the first occurrence of `q` in `d`, or -1 if none.
pub open spec fn first_match(d: Seq<char>, q: Seq<char>) -> int {
    first_match_from(d, q, 0)
}

/// The first-match position is sound and minimal.
pub proof fn lemma_first_match_from(d: Seq<char>, q: Seq<char>, i: nat)
    requires
        i <= d.len(),
    ensures
        first_match_from(d, q, i) >= 0 ==> i <= first_match_from(d, q, i) && matches_at(
            d,
            q,
            first_match_from(d, q, i),
        ),
        first_match_from(d, q, i) == -1 ==> forall|j: int|
            i <= j ==> !matches_at(d, q, j),
        forall|j: int|
            i <= j < first_match_from(d, q, i) ==> !matches_at(d, q, j),
    decreases d.len() - i,
{
    if i + q.len() > d.len() {
        assert forall|j: int| i <= j implies !matches_at(d, q, j) by {}
    } else if matches_at(d, q, i as int) {
    } else {
        assert(q.len() > 0) by {
            if q.len() == 0 {
                assert(d.subrange(i as int, i as int) =~= q);
            }
        }
        lemma_first_match_from(d, q, i + 1);
    }
}

/// Checks whether `q` occurs in `d` at position `i`.
pub fn matches_at_exec(d: &Vec<char>, q: &Vec<char>, i: usize) -> (r: bool)
    requires
        i + q@.len() <= d@.len(),
    ensures
        r == matches_at(d@, q@, i as int),
{
    let m = q.len();
    let n = d.len();
    let mut j: usize = 0;
    while j < m
        invariant
            m == q@.len(),
            n == d@.len(),
            j <= m,
            i + m <= n,
            forall|k: int| 0 <= k < j ==> d@[i + k] == q@[k],
        decreases m - j,
    {
        if d[i + j] != q[j] {
            proof {
                assert(d@.subrange(i as int, i + m) != q@) by {
                    assert(d@.subrange(i as int, i + m)[j as int] == d@[i + j]);
                }
            }
            return false;
        }
        j += 1;
    }
    proof {
        assert(d@.subrange(i as int, i + m) =~= q@);
    }
    true
}

/// Finds the first occurrence of `q` in `d`.
pub fn find_first(d: &Vec<char>, q: &Vec<char>) -> (r: Option<usize>)
    ensures
        match r {
            Some(p) => p == first_match(d@, q@),
            None => first_match(d@, q@) == -1,
        },
{
    let n = d.len();
    let m = q.len();
    if m > n {
        proof {
            lemma_first_match_from(d@, q@, 0);
        }
        return None;
    }
    let mut i: usize = 0;
    loop
        invariant
            n == d@.len(),
            m == q@.len(),
            m <= n,
            i <= n - m,
            first_match(d@, q@) == first_match_from(d@, q@, i as nat),
        decreases n - i,
    {
        if matches_at_exec(d, q, i) {
            proof {
                assert(first_match_from(d@, q@, i as nat) == i as int);
            }
            return Some(i);
        }
        proof {
            if q@.len() == 0 {
                assert(d@.subrange(i as int, i as int) =~= q@);
            }
            assert(first_match_from(d@, q@, i as nat) == first_match_from(d@, q@, (i + 1) as nat));
        }
        if i == n - m {
            proof {
                assert(first_match_from(d@, q@, (i + 1) as nat) == -1);
            }
            return None;
        }
        i += 1;
    }
}

/// Checks whether `d` begins with `q`.
pub fn starts_with_exec(d: &Vec<char>, q: &Vec<char>) -> (r: bool)
    ensures
        r == starts_with(d@, q@),
{
    if q.len() > d.len() {
        return false;
    }
    matches_at_exec(d, q, 0)
}

/// Checks whether `q` occurs somewhere in `d`.
pub fn contains_exec(d: &Vec<char>, q: &Vec<char>) -> (r: bool)
    ensures
        r == contains_seq(d@, q@),
{
    let r = find_first(d, q);
    proof {
        lemma_first_match_from(d@, q@, 0);
    }
    match r {
        Some(_) => true,
        None => false,
    }
}

/// Dictionary order on character sequences, by Unicode code point.
/// This agrees with the byte order of the UTF-8 encodings.
pub open spec fn lex_le(a: Seq<char>, b: Seq<char>) -> bool
    decreases a.len(),
{
    if a.len() == 0 {
        true
    } else if b.len() == 0 {
        false
    } else if (a[0] as u32) < (b[0] as u32) {
        true
    } else if (a[0] as u32) > (b[0] as u32) {
        false
    } else {
        lex_le(a.drop_first(), b.drop_first())
    }
}

/// Dictionary order is total.
pub proof fn lemma_lex_total(a: Seq<char>, b: Seq<char>)
    ensures
        lex_le(a, b) || lex_le(b, a),
    decreases a.len(),
{
    if a.len() == 0 || b.len() == 0 {
    } else if (a[0] as u32) == (b[0] as u32) {
        lemma_lex_total(a.drop_first(), b.drop_first());
    }
}

/// Compares two character vectors in dictionary order.
pub fn lex_le_exec(a: &Vec<char>, b: &Vec<char>) -> (r: bool)
    ensures
        r == lex_le(a@, b@),
{
    let mut i: usize = 0;
    proof {
        assert(a@.skip(0) =~= a@);
        assert(b@.skip(0) =~= b@);
    }
    loop
        invariant
            i <= a@.len(),
            i <= b@.len(),
            lex_le(a@, b@) == lex_le(a@.skip(i as int), b@.skip(i as int)),
        ensures
            lex_le(a@, b@) == lex_le(a@.skip(i as int), b@.skip(i as int)),
            i <= a@.len() && i <= b@.len(),
            i == a@.len() || i == b@.len() || a@[i as int] != b@[i as int],
        decreases a@.len() - i,
    {
        if i == a.len() || i == b.len() {
            break ;
        }
        let ca = a[i];
        let cb = b[i];
        if ca != cb {
            break ;
        }
        proof {
            assert(a@.skip(i as int).drop_first() =~= a@.skip(i + 1));
            assert(b@.skip(i as int).drop_first() =~= b@.skip(i + 1));
            assert(a@.skip(i as int)[0] == a@[i as int]);
            assert(b@.skip(i as int)[0] == b@[i as int]);
        }
        i += 1;
    }
    proof {
        if i < a@.len() && i < b@.len() {
            assert(a@.skip(i as int)[0] == a@[i as int]);
            assert(b@.skip(i as int)[0] == b@[i as int]);
            if (a@[i as int] as u32) == (b@[i as int] as u32) {
                vstd::utf8::char_u32_cast(a@[i as int], a@[i as int] as u32);
                vstd::utf8::char_u32_cast(b@[i as int], b@[i as int] as u32);
            }
        }
    }
    if i == a.len() {
        true
    } else if i == b.len() {
        false
    } else {
        (a[i] as u32) < (b[i] as u32)
    }
}

/// Compares two string slices character by character.
pub fn str_eq(a: &str, b: &str) -> (r: bool)
    ensures
        r == (a@ == b@),
{
    let ca = chars_of(a);
    let cb = chars_of(b);
    let n = ca.len();
    if n != cb.len() {
        proof {
            assert(a@ != b@);
        }
        return false;
    }
    let mut i: usize = 0;
    while i < n
        invariant
            n == ca@.len() == cb@.len(),
            ca@ == a@,
            cb@ == b@,
            i <= n,
            forall|k: int| 0 <= k < i ==> a@[k] == b@[k],
        decreases n - i,
    {
        if ca[i] != cb[i] {
            return false;
        }
        i += 1;
    }
    proof {
        assert(a@ =~= b@);
    }
    true
}

/// Inserting an element anywhere adds it to the multiset.
pub proof fn lemma_insert_multiset<T>(s: Seq<T>, i: int, x: T)
    requires
        0 <= i <= s.len(),
    ensures
        s.insert(i, x).to_multiset() == s.to_multiset().insert(x),
{
    let t = s.insert(i, x);
    assert(t == s.take(i).push(x) + s.skip(i)) by {
        assert(t =~= s.take(i).push(x) + s.skip(i));
    }
    vstd::seq_lib::lemma_multiset_commutative(s.take(i).push(x), s.skip(i));
    vstd::seq_lib::lemma_multiset_commutative(s.take(i), s.skip(i));
    assert(s.take(i) + s.skip(i) =~= s);
    assert(s.take(i).push(x).to_multiset() == s.take(i).to_multiset().insert(x));
    assert(t.to_multiset() =~= s.to_multiset().insert(x)) by {
        assert(t.to_multiset() == s.take(i).to_multiset().insert(x).add(s.skip(i).to_multiset()));
        assert(s.to_multiset() == s.take(i).to_multiset().add(s.skip(i).to_multiset()));
    }
}

/// Dictionary order is transitive.
pub proof fn lemma_lex_trans(a: Seq<char>, b: Seq<char>, c: Seq<char>)
    requires
        lex_le(a, b),
        lex_le(b, c),
    ensures
        lex_le(a, c),
    decreases a.len(),
{
    if a.len() > 0 && b.len() > 0 && c.len() > 0 {
        if (a[0] as u32) == (b[0] as u32) && (b[0] as u32) == (c[0] as u32) {
            lemma_lex_trans(a.drop_first(), b.drop_first(), c.drop_first());
        }
    }
}

/// An ASCII whitespace character.
pub open spec fn is_space(c: char) -> bool {
    c == ' ' || c == '\t' || c == '\n' || c == '\r'
}

/// Every character of `s` is whitespace; holds for the empty sequence.
pub open spec fn all_space(s: Seq<char>) -> bool {
    forall|i: int| 0 <= i < s.len() ==> is_space(s[i])
}

/// Checks whether a character vector consists of whitespace only.
pub fn all_space_exec(s: &Vec<char>) -> (r: bool)
    ensures
        r == all_space(s@),
{
    let n = s.len();
    let mut i: usize = 0;
    while i < n
        invariant
            n == s@.len(),
            i <= n,
            forall|k: int| 0 <= k < i ==> is_space(s@[k]),
        decreases n - i,
    {
        let c = s[i];
        if !(c == ' ' || c == '\t' || c == '\n' || c == '\r') {
            return false;
        }
        i += 1;
    }
    true
}

/// Concatenates two string slices.
pub fn concat_str(a: &str, b: &str) -> (r: String)
    ensures
        r@ == a@ + b@,
{
    let mut r = a.to_owned();
    r.append(b);
    r
}

} // verus!
