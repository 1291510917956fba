//! Relevance ranking of search results: a pure, stable reordering of a
//! food list by how well each description matches the query.
//!
//! A description starting with the query scores 20; one containing it
//! at position `p` (with length `L`, both measured in UTF-8 bytes of
//! the lowered description) scores `10 * (L - p) / max(L, 1)` rounded
//! down; anything else scores 0.  The list is sorted by score,
//! descending, and ties keep their input order.

use vstd::prelude::*;
use crate::food::{Food, FoodView};
use crate::text::{starts_with, first_match, matches_at, lemma_first_match_from, chars_of,
    starts_with_exec, find_first};

verus! {

use vstd::utf8::{encode_utf8, encode_scalar};

broadcast use vstd::seq_lib::group_to_multiset_ensures;

/// What `str::to_lowercase` returns: a pure function of the characters
/// alone (Unicode-aware lower-casing).
pub uninterp spec fn unicode_lower_of(s: Seq<char>) -> Seq<char>;

/// Relies on `str::to_lowercase`: the result depends on the characters
/// of the input alone.
#[verifier::external_body]
fn to_lowercase(s: &str) -> (r: String)
    ensures
        r@ == unicode_lower_of(s@),
{
    s.to_lowercase()
}

/// Relevance score of a lower-cased description `d` against a
/// lower-cased query `q`.  The match position and the description
/// length are measured in UTF-8 bytes, as the wire format measures
/// strings.
pub open spec fn score_of(q: Seq<char>, d: Seq<char>) -> int {
    if starts_with(d, q) {
        20
    } else {
        let p = first_match(d, q);
        if p >= 0 {
            let lb = encode_utf8(d).len() as int;
            let pb = encode_utf8(d.take(p)).len() as int;
            10 * (lb - pb) / (if lb >= 1 {
                lb
            } else {
                1
            })
        } else {
            0
        }
    }
}

/// The UTF-8 encoding of a concatenation is the concatenation of the
/// encodings.
proof fn lemma_encode_concat(a: Seq<char>, b: Seq<char>)
    ensures
        encode_utf8(a + b) == encode_utf8(a) + encode_utf8(b),
    decreases a.len(),
{
    if a.len() == 0 {
        assert(a + b =~= b);
        assert(encode_utf8(a) + encode_utf8(b) =~= encode_utf8(b));
    } else {
        assert((a + b).drop_first() =~= a.drop_first() + b);
        assert((a + b)[0] == a[0]);
        lemma_encode_concat(a.drop_first(), b);
        assert(encode_utf8(a + b) =~= encode_utf8(a) + encode_utf8(b));
    }
}

/// Every character encodes to at least one byte.
proof fn lemma_encode_len_ge(s: Seq<char>)
    ensures
        encode_utf8(s).len() >= s.len(),
    decreases s.len(),
{
    if s.len() > 0 {
        lemma_encode_len_ge(s.drop_first());
    }
}

/// Relevance score of a food against a lower-cased query.
pub open spec fn food_score(f: FoodView, ql: Seq<char>) -> int {
    score_of(ql, unicode_lower_of(f.description))
}

/// The score lies in `[0, 20]`; a prefix match scores exactly 20 and
/// anything that is not a prefix match scores at most 9.
pub proof fn lemma_score_bounds(q: Seq<char>, d: Seq<char>)
    ensures
        0 <= score_of(q, d) <= 20,
        starts_with(d, q) ==> score_of(q, d) == 20,
        !starts_with(d, q) ==> score_of(q, d) <= 9,
{
    if !starts_with(d, q) {
        let p = first_match(d, q);
        lemma_first_match_from(d, q, 0);
        if p >= 0 {
            assert(matches_at(d, q, p));
            assert(p >= 1);
            assert(p <= d.len());
            let lb = encode_utf8(d).len() as int;
            let pb = encode_utf8(d.take(p)).len() as int;
            assert(pb >= 1) by {
                lemma_encode_len_ge(d.take(p));
            }
            assert(pb <= lb) by {
                assert(d.take(p) + d.skip(p) =~= d);
                lemma_encode_concat(d.take(p), d.skip(p));
            }
            assert(0 <= 10 * (lb - pb) / lb <= 9) by (nonlinear_arith)
                requires
                    1 <= pb <= lb,
            ;
        }
    }
}

/// In any list of descriptions ordered by non-increasing score, every
/// prefix match of the query comes before every description in which
/// the query only occurs later (or not at all).
pub proof fn lemma_ranked_prefix_first(q: Seq<char>, ds: Seq<Seq<char>>, i: int, j: int)
    requires
        forall|a: int, b: int|
            0 <= a <= b < ds.len() ==> score_of(q, ds[a]) >= score_of(q, ds[b]),
        0 <= i < ds.len(),
        0 <= j < ds.len(),
        starts_with(ds[i], q),
        !starts_with(ds[j], q),
    ensures
        i < j,
{
    lemma_score_bounds(q, ds[i]);
    lemma_score_bounds(q, ds[j]);
    if j < i {
        assert(score_of(q, ds[j]) >= score_of(q, ds[i]));
    }
}

/// In a food list ordered by non-increasing relevance (as the ranker
/// leaves it), every food whose lower-cased description starts with
/// the query comes before every food in which the query only occurs
/// later or not at all.
pub proof fn lemma_rank_puts_prefix_matches_first(
    foods: Seq<Food>,
    ql: Seq<char>,
    i: int,
    j: int,
)
    requires
        forall|a: int, b: int|
            0 <= a <= b < foods.len() ==> food_score(foods[a]@, ql) >= food_score(foods[b]@, ql),
        0 <= i < foods.len(),
        0 <= j < foods.len(),
        starts_with(unicode_lower_of(foods[i]@.description), ql),
        !starts_with(unicode_lower_of(foods[j]@.description), ql),
    ensures
        i < j,
{
    lemma_score_bounds(ql, unicode_lower_of(foods[i]@.description));
    lemma_score_bounds(ql, unicode_lower_of(foods[j]@.description));
    if j < i {
        assert(food_score(foods[j]@, ql) >= food_score(foods[i]@, ql));
    }
}

/// A food carried through scoring, remembering its input position.
struct Scored {
    idx: usize,
    score: u64,
    food: Food,
}

/// Strict ranking order on scored entries: higher score first, and
/// among equal scores the earlier input position first.
spec fn before(a: Scored, b: Scored) -> bool {
    a.score > b.score || (a.score == b.score && a.idx < b.idx)
}

fn before_exec(a: &Scored, b: &Scored) -> (r: bool)
    ensures
        r == before(*a, *b),
{
    a.score > b.score || (a.score == b.score && a.idx < b.idx)
}

/// Two sequences related by a permutation of positions carry the same
/// multiset of elements: ranking loses nothing and duplicates nothing.
pub proof fn lemma_perm_multiset<T>(a: Seq<T>, b: Seq<T>, p: Seq<int>)
    requires
        p.len() == a.len(),
        b.len() == a.len(),
        forall|k: int| 0 <= k < p.len() ==> 0 <= #[trigger] p[k] < a.len(),
        forall|k1: int, k2: int| 0 <= k1 < k2 < p.len() ==> p[k1] != p[k2],
        forall|k: int| 0 <= k < p.len() ==> b[k] == a[p[k]],
    ensures
        a.to_multiset() == b.to_multiset(),
    decreases a.len(),
{
    let n = a.len() as int;
    if n == 0 {
        assert(a.to_multiset() =~= b.to_multiset()) by {
            assert(a.to_multiset().len() == 0);
            assert(b.to_multiset().len() == 0);
        }
    } else {
        let j = p[n - 1];
        let a1 = a.remove(j);
        let b1 = b.drop_last();
        let p1 = Seq::new((n - 1) as nat, |k: int| if p[k] > j { p[k] - 1 } else { p[k] });
        assert forall|k: int| 0 <= k < p1.len() implies 0 <= #[trigger] p1[k] < a1.len() by {
            assert(p[k] != j);
        }
        assert forall|k1: int, k2: int| 0 <= k1 < k2 < p1.len() implies p1[k1] != p1[k2] by {
            assert(p[k1] != p[k2]);
            assert(p[k1] != j && p[k2] != j);
        }
        assert forall|k: int| 0 <= k < p1.len() implies b1[k] == a1[p1[k]] by {
            assert(b[k] == a[p[k]]);
            assert(p[k] != j);
            if p[k] < j {
                assert(a1[p[k]] == a[p[k]]);
            } else {
                assert(a1[p[k] - 1] == a[p[k]]);
            }
        }
        lemma_perm_multiset(a1, b1, p1);
        assert(a1.to_multiset() == a.to_multiset().remove(a[j]));
        assert(a.contains(a[j]));
        assert(a.to_multiset().count(a[j]) > 0);
        assert(a.to_multiset() =~= a1.to_multiset().insert(a[j]));
        assert(b =~= b1.push(b[n - 1]));
        assert(b.to_multiset() =~= b1.to_multiset().insert(b[n - 1]));
        assert(b[n - 1] == a[j]);
    }
}

/// The UTF-8 byte length of one character.
fn char_utf8_len(c: char) -> (r: u128)
    ensures
        r == encode_scalar(c as u32).len(),
        1 <= r <= 4,
{
    proof {
        vstd::utf8::char_is_scalar(c);
    }
    let u = c as u32;
    if u <= 0x7F {
        1
    } else if u <= 0x7FF {
        2
    } else if u <= 0xFFFF {
        3
    } else {
        4
    }
}

/// Sums the UTF-8 byte lengths of `d[from..to]`.
#[verifier::loop_isolation(false)]
fn utf8_len_range(d: &Vec<char>, from: usize, to: usize) -> (r: u128)
    requires
        from <= to <= d@.len(),
    ensures
        r == encode_utf8(d@.subrange(from as int, to as int)).len(),
        r <= 4 * (to - from),
{
    let mut sum: u128 = 0;
    let mut i: usize = from;
    proof {
        assert(d@.subrange(from as int, from as int) =~= Seq::<char>::empty());
    }
    while i < to
        invariant
            from <= i <= to,
            sum == encode_utf8(d@.subrange(from as int, i as int)).len(),
            sum <= 4 * (i - from),
        decreases to - i,
    {
        proof {
            assert(d@.subrange(from as int, i + 1) =~= d@.subrange(from as int, i as int) + seq![
                d@[i as int],
            ]);
            lemma_encode_concat(d@.subrange(from as int, i as int), seq![d@[i as int]]);
            let c = d@[i as int];
            let single = seq![c];
            assert(encode_utf8(single) == encode_scalar(single[0] as u32) + encode_utf8(
                single.drop_first(),
            ));
            assert(single[0] == c);
            assert(single.drop_first() =~= Seq::<char>::empty());
            assert(encode_scalar(c as u32) + Seq::<u8>::empty() =~= encode_scalar(c as u32));
            assert(encode_utf8(single) == encode_scalar(c as u32));
        }
        sum = sum + char_utf8_len(d[i]);
        i += 1;
    }
    sum
}

/// Computes the relevance score of one food.
fn score_food(qlow: &Vec<char>, food: &Food) -> (r: u64)
    ensures
        r as int == score_of(qlow@, unicode_lower_of(food@.description)),
{
    let dlow = chars_of(to_lowercase(food.description.as_str()).as_str());
    if starts_with_exec(&dlow, qlow) {
        20
    } else {
        match find_first(&dlow, qlow) {
            Some(p) => {
                proof {
                    lemma_first_match_from(dlow@, qlow@, 0);
                }
                let n = dlow.len();
                let pb = utf8_len_range(&dlow, 0, p);
                let rest = utf8_len_range(&dlow, p, n);
                let lb = pb + rest;
                proof {
                    assert(dlow@.subrange(0, p as int) =~= dlow@.take(p as int));
                    assert(dlow@.take(p as int) + dlow@.subrange(p as int, n as int) =~= dlow@);
                    lemma_encode_concat(dlow@.take(p as int), dlow@.subrange(p as int, n as int));
                }
                let num = 10u128 * (lb - pb);
                let den = if lb >= 1 {
                    lb
                } else {
                    1u128
                };
                let sc = (num / den) as u64;
                proof {
                    let lbi = lb as int;
                    let pbi = pb as int;
                    assert(num == 10 * (lbi - pbi));
                    assert(0 <= 10 * (lbi - pbi) / (if lbi >= 1 { lbi } else { 1 }) <= 20) by {
                        lemma_score_bounds(qlow@, dlow@);
                    }
                }
                sc
            },
            None => 0,
        }
    }
}

/// A scored entry mirrors the input list at its remembered position.
spec fn scored_wrt(e: Scored, input: Seq<Food>, ql: Seq<char>) -> bool {
    &&& e.idx < input.len()
    &&& e.food == input[e.idx as int]
    &&& e.score as int == food_score(input[e.idx as int]@, ql)
}

/// Stable insertion sort on scored entries, by [`before`].
#[verifier::loop_isolation(false)]
fn sort_scored(v: &mut Vec<Scored>)
    requires
        forall|a: int, b: int|
            0 <= a < b < old(v)@.len() ==> (#[trigger] old(v)@[a]).idx != (#[trigger] old(
                v,
            )@[b]).idx,
    ensures
        final(v)@.len() == old(v)@.len(),
        final(v)@.to_multiset() == old(v)@.to_multiset(),
        forall|a: int, b: int|
            0 <= a < b < final(v)@.len() ==> before(final(v)@[a], final(v)@[b]),
{
    let ghost ms0 = old(v)@.to_multiset();
    let n = v.len();
    let mut i: usize = 1;
    while i < n
        invariant
            v@.len() == n,
            1 <= i,
            v@.to_multiset() == ms0,
            forall|a: int, b: int|
                0 <= a < b < v@.len() ==> (#[trigger] v@[a]).idx != (#[trigger] v@[b]).idx,
            forall|a: int, b: int| 0 <= a < b < i && b < v@.len() ==> before(v@[a], v@[b]),
        decreases n - i,
    {
        let ghost vpre = v@;
        let e = v.remove(i);
        proof {
            assert(vpre.contains(vpre[i as int]));
            assert(vpre.to_multiset().count(e) > 0);
            vpre.remove_ensures(i as int);
        }
        let mut j: usize = 0;
        while j < i && before_exec(&v[j], &e)
            invariant
                j <= i,
                v@ == vpre.remove(i as int),
                forall|a: int| 0 <= a < j ==> before(#[trigger] v@[a], e),
            decreases i - j,
        {
            j += 1;
        }
        let ghost vmid = v@;
        proof {
            // positions below i are untouched by the removal
            assert(forall|k: int| 0 <= k < i ==> vmid[k] == vpre[k]);
            // the pivot differs in input position from everything left
            assert forall|k: int| 0 <= k < vmid.len() implies (#[trigger] vmid[k]).idx != e.idx by {
                if k >= i {
                    assert(vmid[k] == vpre[k + 1]);
                }
            }
            // what is left is still pairwise distinct
            assert forall|a: int, b: int| 0 <= a < b < vmid.len() implies (
            #[trigger] vmid[a]).idx != (#[trigger] vmid[b]).idx by {
                if a >= i {
                    assert(vmid[a] == vpre[a + 1]);
                }
                if b >= i {
                    assert(vmid[b] == vpre[b + 1]);
                }
            }
            if j < i {
                assert(!before(vmid[j as int], e));
                assert(before(e, vmid[j as int]));
            }
        }
        v.insert(j, e);
        proof {
            crate::text::lemma_insert_multiset(vmid, j as int, e);
            assert(vmid.to_multiset() == vpre.to_multiset().remove(e));
            assert(vpre.to_multiset().remove(e).insert(e) =~= vpre.to_multiset());
            vmid.insert_ensures(j as int, e);
            assert forall|a: int, b: int| 0 <= a < b < v@.len() implies (#[trigger] v@[a]).idx != (
            #[trigger] v@[b]).idx by {
                if a == j as int {
                    assert(v@[a] == e && v@[b] == vmid[b - 1]);
                } else if b == j as int {
                    assert(v@[b] == e && v@[a] == vmid[a]);
                } else if a < j as int && b < j as int {
                    assert(v@[a] == vmid[a] && v@[b] == vmid[b]);
                } else if a < j as int {
                    assert(v@[a] == vmid[a] && v@[b] == vmid[b - 1]);
                    assert(a < b - 1 || vmid[a].idx != e.idx);
                    if a == b - 1 {
                        assert(v@[a].idx != v@[b].idx);
                    }
                } else {
                    assert(v@[a] == vmid[a - 1] && v@[b] == vmid[b - 1]);
                }
            }
            assert forall|a: int, b: int| 0 <= a < b < i + 1 && b < v@.len() implies before(
                v@[a],
                v@[b],
            ) by {
                if b < j as int {
                    assert(v@[a] == vmid[a] && v@[b] == vmid[b]);
                } else if b == j as int {
                    assert(v@[b] == e && v@[a] == vmid[a]);
                    assert(before(vmid[a], e));
                } else if a == j as int {
                    assert(v@[a] == e && v@[b] == vmid[b - 1]);
                    assert(j < i);
                    assert(before(e, vmid[j as int]));
                    if b - 1 > j as int {
                        assert(before(vmid[j as int], vmid[b - 1]));
                    }
                } else if a < j as int {
                    assert(v@[a] == vmid[a] && v@[b] == vmid[b - 1]);
                } else {
                    assert(v@[a] == vmid[a - 1] && v@[b] == vmid[b - 1]);
                }
            }
        }
        i += 1;
    }
}

/// The positions `p` witness a stable, score-descending reordering of
/// `input` into `output`: every input element reappears exactly once,
/// scores never increase, and entries of equal score keep their input
/// order.
pub open spec fn rank_perm(input: Seq<Food>, output: Seq<Food>, p: Seq<int>, ql: Seq<char>) -> bool {
    &&& p.len() == input.len()
    &&& output.len() == input.len()
    &&& (forall|k: int| 0 <= k < p.len() ==> 0 <= #[trigger] p[k] < input.len())
    &&& (forall|a: int, b: int| 0 <= a < b < p.len() ==> p[a] != p[b])
    &&& (forall|k: int| 0 <= k < p.len() ==> output[k] == input[#[trigger] p[k]])
    &&& (forall|a: int, b: int|
        0 <= a < b < p.len() ==> food_score(input[#[trigger] p[a]]@, ql) > food_score(
            input[#[trigger] p[b]]@,
            ql,
        ) || (food_score(input[p[a]]@, ql) == food_score(input[p[b]]@, ql) && p[a] < p[b]))
}

/// Reorders `foods` by relevance to `query`, most relevant first.
/// The result is a permutation of the input (nothing is lost or
/// duplicated), scores are non-increasing, and entries of equal score
/// keep their input order (a stable sort).
#[verifier::loop_isolation(false)]
pub fn sort_foods_by_query(foods: &mut Vec<Food>, query: &str)
    ensures
        final(foods)@.len() == old(foods)@.len(),
        final(foods)@.to_multiset() == old(foods)@.to_multiset(),
        forall|a: int, b: int|
            0 <= a <= b < final(foods)@.len() ==> food_score(
                final(foods)@[a]@,
                unicode_lower_of(query@),
            ) >= food_score(final(foods)@[b]@, unicode_lower_of(query@)),
        exists|p: Seq<int>|
            rank_perm(old(foods)@, final(foods)@, p, unicode_lower_of(query@)),
{
    let ghost input = old(foods)@;
    let ghost ql = unicode_lower_of(query@);
    let qlow = chars_of(to_lowercase(query).as_str());
    let n = foods.len();
    let mut scored: Vec<Scored> = Vec::new();
    let mut idx: usize = 0;
    while foods.len() > 0
        invariant
            idx == scored@.len(),
            idx + foods@.len() == n,
            foods@ == input.skip(idx as int),
            forall|k: int| 0 <= k < idx ==> (#[trigger] scored@[k]).idx == k,
            forall|k: int| 0 <= k < idx ==> scored_wrt(#[trigger] scored@[k], input, ql),
        decreases foods@.len(),
    {
        proof {
            assert(input.skip(idx as int)[0] == input[idx as int]);
            assert(input.skip(idx as int).remove(0) =~= input.skip(idx + 1));
        }
        let f = foods.remove(0);
        let sc = score_food(&qlow, &f);
        scored.push(Scored { idx: idx, score: sc, food: f });
        idx += 1;
    }
    proof {
        assert(input.skip(n as int) =~= Seq::<Food>::empty());
    }
    let ghost scored0 = scored@;
    sort_scored(&mut scored);
    let ghost sortedv = scored@;
    proof {
        assert forall|k: int| 0 <= k < sortedv.len() implies scored_wrt(
            #[trigger] sortedv[k],
            input,
            ql,
        ) by {
            assert(sortedv.contains(sortedv[k]));
            assert(sortedv.to_multiset().count(sortedv[k]) > 0);
            assert(scored0.to_multiset().count(sortedv[k]) > 0);
            assert(scored0.contains(sortedv[k]));
            let k0 = choose|k0: int| 0 <= k0 < scored0.len() && scored0[k0] == sortedv[k];
            assert(scored_wrt(scored0[k0], input, ql));
        }
    }
    let m = scored.len();
    let mut k: usize = 0;
    while scored.len() > 0
        invariant
            k + scored@.len() == m,
            m == n,
            foods@.len() == k,
            scored@ == sortedv.skip(k as int),
            forall|t: int| 0 <= t < k ==> foods@[t] == (#[trigger] sortedv[t]).food,
        decreases scored@.len(),
    {
        proof {
            assert(sortedv.skip(k as int)[0] == sortedv[k as int]);
            assert(sortedv.skip(k as int).remove(0) =~= sortedv.skip(k + 1));
        }
        let e = scored.remove(0);
        foods.push(e.food);
        k += 1;
    }
    proof {
        let out = foods@;
        let p = Seq::new(n as nat, |t: int| sortedv[t].idx as int);
        assert forall|a: int, b: int| 0 <= a < b < n implies p[a] != p[b] by {
            assert(before(sortedv[a], sortedv[b]));
            if sortedv[a].idx == sortedv[b].idx {
                assert(sortedv[a].score as int == food_score(
                    input[sortedv[a].idx as int]@,
                    ql,
                ));
                assert(sortedv[b].score as int == food_score(
                    input[sortedv[b].idx as int]@,
                    ql,
                ));
            }
        }
        assert forall|a: int, b: int|
            0 <= a < b < n implies food_score(input[#[trigger] p[a]]@, ql) > food_score(
            input[#[trigger] p[b]]@,
            ql,
        ) || (food_score(input[p[a]]@, ql) == food_score(input[p[b]]@, ql) && p[a] < p[b]) by {
            assert(before(sortedv[a], sortedv[b]));
            assert(sortedv[a].score as int == food_score(input[p[a]]@, ql));
            assert(sortedv[b].score as int == food_score(input[p[b]]@, ql));
        }
        assert(rank_perm(input, out, p, ql));
        lemma_perm_multiset(input, out, p);
        assert forall|a: int, b: int| 0 <= a <= b < out.len() implies food_score(out[a]@, ql)
            >= food_score(out[b]@, ql) by {
            assert(out[a] == input[p[a]] && out[b] == input[p[b]]);
            if a < b {
                assert(before(sortedv[a], sortedv[b]));
                assert(sortedv[a].score as int == food_score(input[p[a]]@, ql));
                assert(sortedv[b].score as int == food_score(input[p[b]]@, ql));
            }
        }
    }
}

} // verus!
