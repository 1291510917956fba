//! The request logic of each endpoint: parameter checking, store
//! reads, ranking, visibility filtering, truncation and image-URL
//! rewriting.  The HTTP layer outside this crate only extracts plain
//! values from the request, calls one of these functions and
//! serializes the result.

use vstd::prelude::*;
use crate::error::ApiError;
use crate::food::{Food, FoodView, views_of};
use crate::rewrite::{with_rewritten_url, fix_image_url, fix_image_urls};
use crate::sanitize::{sanitize_ok, sanitize_input, slug_len_ok, slug_len_check};
use crate::store::{Store, wf, has_slug, hydrated, verified_slugs,
    search_desc_upto, search_tag_upto};
use crate::text::{lower, lex_le, lemma_lex_total, lex_le_exec, concat_str, chars_of};

verus! {

/// A slug path parameter is usable when its length is in bounds and it
/// passes the sanitizer.
pub open spec fn slug_param_ok(s: Seq<char>) -> bool {
    slug_len_ok(s) && sanitize_ok(s)
}

/// Handles `GET /food/{slug}`: checks the parameter, fetches the food,
/// rewrites its image URL and refuses unverified entries.  Every
/// returned food is verified.
pub fn food(store: &Store, slug: &str, static_url: &str) -> (r: Result<Food, ApiError>)
    requires
        wf(store@),
    ensures
        r is Ok <==> slug_param_ok(slug@) && exists|i: int|
            0 <= i < store@.foods.len() && (#[trigger] store@.foods[i]).slug == slug@
                && store@.foods[i].verified,
        match r {
            Result::Ok(f) => {
                &&& exists|i: int|
                    0 <= i < store@.foods.len() && (#[trigger] store@.foods[i]).slug == slug@
                        && store@.foods[i].verified && f@ == with_rewritten_url(
                        hydrated(store@, i),
                        static_url@,
                    )
                &&& f@.verified == Some(true)
            },
            Result::Err(e) => {
                &&& (e.status == 400 || e.status == 403 || e.status == 404)
                &&& (e.status == 400 <==> !slug_param_ok(slug@))
                &&& (e.status == 404 <==> slug_param_ok(slug@) && !has_slug(store@, slug@))
                &&& (e.status == 403 <==> slug_param_ok(slug@) && exists|i: int|
                    0 <= i < store@.foods.len() && (#[trigger] store@.foods[i]).slug == slug@
                        && !store@.foods[i].verified)
            },
        },
{
    if !slug_len_check(slug) {
        return Err(
            ApiError::new(
                400,
                "Slug en az 1 karakter, en fazla 100 karakterden olu\u{015F}abilir",
            ),
        );
    }
    if let Err(_) = sanitize_input(slug) {
        return Err(ApiError::new(400, "Sorgu ge\u{00E7}ersiz karakterler i\u{00E7}eriyor"));
    }
    let mut f = match store.select_food_by_slug(slug) {
        Ok(f) => f,
        Err(_) => {
            return Err(ApiError::new(404, "Bu yemekle ilgili veriye ula\u{015F}\u{0131}lamad\u{0131}"));
        },
    };
    fix_image_url(static_url, &mut f);
    match f.verified {
        Some(true) => Ok(f),
        _ => Err(
            ApiError::new(
                403,
                "Bu yemek hen\u{00FC}z onaylanmad\u{0131}\u{011F}\u{0131} i\u{00E7}in g\u{00F6}sterilemiyor",
            ),
        ),
    }
}

/// Handles `GET /tags`: all stored tag descriptions.
pub fn tags_list(store: &Store) -> (r: Vec<String>)
    ensures
        r.deep_view() == store@.tags,
{
    store.select_all_tags()
}

/// Handles `GET /`: the map of endpoint names to their URLs, in key
/// order.
pub fn endpoints(base_url: &str) -> (r: Vec<(String, String)>)
    ensures
        r@.len() == 5,
        r@[0].0@ == "api_health_url"@ && r@[0].1@ == base_url@ + "/health"@,
        r@[1].0@ == "get_food_url"@ && r@[1].1@ == base_url@ + "/food/{slug}"@,
        r@[2].0@ == "list_all_foods_url"@ && r@[2].1@ == base_url@ + "/foods/list"@,
        r@[3].0@ == "search_food_url"@ && r@[3].1@ == base_url@
            + "/foods/search?q={query}&mode={description, tag}&limit={limit}"@,
        r@[4].0@ == "show_all_tags"@ && r@[4].1@ == base_url@ + "/tags"@,
{
    let mut r: Vec<(String, String)> = Vec::new();
    r.push(("api_health_url".to_owned(), concat_str(base_url, "/health")));
    r.push(("get_food_url".to_owned(), concat_str(base_url, "/food/{slug}")));
    r.push(("list_all_foods_url".to_owned(), concat_str(base_url, "/foods/list")));
    r.push(
        (
            "search_food_url".to_owned(),
            concat_str(base_url, "/foods/search?q={query}&mode={description, tag}&limit={limit}"),
        ),
    );
    r.push(("show_all_tags".to_owned(), concat_str(base_url, "/tags")));
    r
}

/// Handles `GET /foods`: the map of food sub-endpoint names to their
/// URLs, in key order.
pub fn foods(base_url: &str) -> (r: Vec<(String, String)>)
    ensures
        r@.len() == 2,
        r@[0].0@ == "list_all_foods_url"@ && r@[0].1@ == base_url@ + "/foods/list"@,
        r@[1].0@ == "search_food_url"@ && r@[1].1@ == base_url@
            + "/foods/search?q={query}&mode={description, tag}&limit={limit}"@,
{
    let mut r: Vec<(String, String)> = Vec::new();
    r.push(("list_all_foods_url".to_owned(), concat_str(base_url, "/foods/list")));
    r.push(
        (
            "search_food_url".to_owned(),
            concat_str(base_url, "/foods/search?q={query}&mode={description, tag}&limit={limit}"),
        ),
    );
    r
}

/// The content type with the UTF-8 charset appended, unless it
/// already names a charset (compared ASCII-case-insensitively).
pub open spec fn stamped_charset(ct: Seq<char>) -> Seq<char> {
    if crate::text::contains_seq(lower(ct), "charset"@) {
        ct
    } else {
        ct + "; charset=utf-8"@
    }
}

/// Stamps a response content type with the UTF-8 charset.
pub fn utf8_content_type(content_type: &str) -> (r: String)
    ensures
        r@ == stamped_charset(content_type@),
{
    let cl = chars_of(crate::text::lower_string(content_type).as_str());
    if crate::text::contains_exec(&cl, &chars_of("charset")) {
        content_type.to_owned()
    } else {
        concat_str(content_type, "; charset=utf-8")
    }
}

/// Sorts a list of strings into dictionary order.
#[verifier::loop_isolation(false)]
fn sort_strings(v: &mut Vec<String>)
    ensures
        final(v)@.len() == old(v)@.len(),
        final(v).deep_view().to_multiset() == old(v).deep_view().to_multiset(),
        forall|a: int, b: int|
            0 <= a <= b < final(v)@.len() ==> lex_le(
                final(v).deep_view()[a],
                final(v).deep_view()[b],
            ),
{
    broadcast use vstd::seq_lib::group_to_multiset_ensures;

    let ghost dv0 = old(v).deep_view();
    let n = v.len();
    proof {
        if n > 0 {
            lemma_lex_total(v.deep_view()[0], v.deep_view()[0]);
        }
    }
    let mut i: usize = 1;
    while i < n
        invariant
            v@.len() == n,
            1 <= i,
            v.deep_view().to_multiset() == dv0.to_multiset(),
            forall|a: int, b: int|
                0 <= a <= b < i && b < v@.len() ==> lex_le(v.deep_view()[a], v.deep_view()[b]),
        decreases n - i,
    {
        let ghost vpre = v.deep_view();
        let e = v.remove(i);
        proof {
            assert(v.deep_view() =~= vpre.remove(i as int));
            assert(vpre.contains(vpre[i as int]));
            assert(vpre.to_multiset().count(e@) > 0);
            vpre.remove_ensures(i as int);
        }
        let echars = chars_of(e.as_str());
        let mut j: usize = 0;
        while j < i && lex_le_exec(&chars_of(v[j].as_str()), &echars)
            invariant
                j <= i,
                v.deep_view() == vpre.remove(i as int),
                forall|a: int| 0 <= a < j ==> lex_le(#[trigger] v.deep_view()[a], e@),
            decreases i - j,
        {
            proof {
                assert(v.deep_view()[j as int] == v@[j as int]@);
            }
            j += 1;
        }
        let ghost vmid = v.deep_view();
        proof {
            assert(forall|k: int| 0 <= k < i ==> vmid[k] == vpre[k]);
            if j < i {
                assert(vmid[j as int] == v@[j as int]@);
                if !lex_le(vmid[j as int], e@) {
                    lemma_lex_total(vmid[j as int], e@);
                }
            }
        }
        v.insert(j, e);
        proof {
            assert(v.deep_view() =~= vmid.insert(j as int, e@));
            crate::text::lemma_insert_multiset(vmid, j as int, e@);
            assert(vmid.to_multiset() == vpre.to_multiset().remove(e@));
            assert(vpre.to_multiset().remove(e@).insert(e@) =~= vpre.to_multiset());
            vmid.insert_ensures(j as int, e@);
            assert forall|a: int, b: int| 0 <= a <= b < i + 1 && b < v@.len() implies lex_le(
                v.deep_view()[a],
                v.deep_view()[b],
            ) by {
                let dv = v.deep_view();
                if a == b {
                    crate::text::lemma_lex_total(dv[a], dv[a]);
                } else if b < j as int {
                    assert(dv[a] == vmid[a] && dv[b] == vmid[b]);
                } else if b == j as int {
                    assert(dv[b] == e@ && dv[a] == vmid[a]);
                    assert(lex_le(vmid[a], e@));
                } else if a == j as int {
                    assert(dv[a] == e@ && dv[b] == vmid[b - 1]);
                    assert(j < i);
                    assert(lex_le(e@, vmid[j as int]));
                    if b - 1 > j as int {
                        assert(lex_le(vmid[j as int], vmid[b - 1]));
                        crate::text::lemma_lex_trans(e@, vmid[j as int], vmid[b - 1]);
                    }
                } else if a < j as int {
                    assert(dv[a] == vmid[a] && dv[b] == vmid[b - 1]);
                    if a == b - 1 {
                        crate::text::lemma_lex_total(vmid[a], vmid[a]);
                    }
                } else {
                    assert(dv[a] == vmid[a - 1] && dv[b] == vmid[b - 1]);
                    if a == b {
                    }
                }
            }
        }
        i += 1;
    }
}

/// Handles `GET /foods/list`: the verified slugs, each mapped to its
/// food URL, listed in dictionary order of the slugs.
#[verifier::loop_isolation(false)]
pub fn foods_list(store: &Store, base_url: &str) -> (r: Vec<(String, String)>)
    requires
        wf(store@),
    ensures
        r@.len() == verified_slugs(store@).len(),
        Seq::new(r@.len(), |k: int| r@[k].0@).to_multiset() == verified_slugs(
            store@,
        ).to_multiset(),
        forall|a: int, b: int| 0 <= a <= b < r@.len() ==> lex_le(r@[a].0@, r@[b].0@),
        forall|k: int|
            0 <= k < r@.len() ==> (#[trigger] r@[k]).1@ == base_url@ + "/food/"@ + r@[k].0@,
{
    broadcast use vstd::seq_lib::group_to_multiset_ensures;

    let mut slugs = store.select_all_foods_slugs();
    sort_strings(&mut slugs);
    let ghost dv = slugs.deep_view();
    let n = slugs.len();
    let prefix = concat_str(base_url, "/food/");
    let mut r: Vec<(String, String)> = Vec::new();
    let mut i: usize = 0;
    while i < n
        invariant
            i <= n,
            n == slugs@.len(),
            dv == slugs.deep_view(),
            r@.len() == i,
            prefix@ == base_url@ + "/food/"@,
            forall|k: int|
                0 <= k < i ==> (#[trigger] r@[k]).0@ == dv[k] && r@[k].1@ == base_url@ + "/food/"@
                    + dv[k],
        decreases n - i,
    {
        proof {
            assert(dv[i as int] == slugs@[i as int]@);
        }
        let s = slugs[i].clone();
        let url = concat_str(prefix.as_str(), s.as_str());
        r.push((s, url));
        i += 1;
    }
    proof {
        assert(Seq::new(r@.len(), |k: int| r@[k].0@) =~= dv);
        assert(dv.to_multiset() == verified_slugs(store@).to_multiset());
    }
    r
}

/// The decoded search parameters: the query, an optional mode and an
/// optional result limit.
pub struct SearchParams {
    pub q: String,
    pub mode: Option<String>,
    pub limit: Option<u64>,
}

/// Mathematical value of a [`SearchParams`].
pub struct SearchParamsView {
    pub q: Seq<char>,
    pub mode: Option<Seq<char>>,
    pub limit: Option<u64>,
}

impl View for SearchParams {
    type V = SearchParamsView;

    open spec fn view(&self) -> SearchParamsView {
        SearchParamsView {
            q: self.q@,
            mode: match self.mode {
                Some(m) => Some(m@),
                None => None,
            },
            limit: self.limit,
        }
    }
}

impl SearchParams {
    /// The serialized size of the parameter set, saturating at the
    /// machine-word maximum.
    pub fn size(&self) -> (r: usize)
        ensures
            r as int == (if crate::sanitize::search_params_size(self@.q, self@.mode) <= usize::MAX
                as int {
                crate::sanitize::search_params_size(self@.q, self@.mode)
            } else {
                usize::MAX as int
            }),
    {
        let a = self.q.as_str().len();
        let b = match &self.mode {
            Some(m) => m.as_str().len(),
            None => 0,
        };
        if a > usize::MAX - crate::sanitize::SEARCH_PARAMS_BASE_BYTES {
            usize::MAX
        } else {
            let s = crate::sanitize::SEARCH_PARAMS_BASE_BYTES + a;
            if b > usize::MAX - s {
                usize::MAX
            } else {
                s + b
            }
        }
    }
}

/// An absent mode, `description` and its alias `name` select the
/// description search (matching is ASCII-case-insensitive).
pub open spec fn mode_is_description(m: Option<Seq<char>>) -> bool {
    match m {
        None => true,
        Some(s) => lower(s) == "description"@ || lower(s) == "name"@,
    }
}

/// The mode `tag` selects the tag search.
pub open spec fn mode_is_tag(m: Option<Seq<char>>) -> bool {
    match m {
        None => false,
        Some(s) => lower(s) == "tag"@,
    }
}

/// The effective result limit: the requested one, or 5 by default.
pub open spec fn effective_limit(l: Option<u64>) -> u64 {
    match l {
        Some(v) => v,
        None => 5,
    }
}

/// The search parameters pass every check: size budget, limit bound,
/// sanitizer and a known mode.
pub open spec fn search_params_ok(p: SearchParamsView, max_limit: u64) -> bool {
    &&& crate::sanitize::search_params_size(p.q, p.mode) <= 96
    &&& effective_limit(p.limit) <= max_limit
    &&& sanitize_ok(p.q)
    &&& (mode_is_description(p.mode) || mode_is_tag(p.mode))
}

/// Only the verified entries of a result list, in order.
pub open spec fn retain_verified(s: Seq<FoodView>) -> Seq<FoodView>
    decreases s.len(),
{
    if s.len() == 0 {
        Seq::empty()
    } else {
        retain_verified(s.drop_last()) + (if s.last().verified == Some(true) {
            seq![s.last()]
        } else {
            Seq::empty()
        })
    }
}

/// The first `l` entries, or all of them if there are fewer.
pub open spec fn take_at_most(s: Seq<FoodView>, l: int) -> Seq<FoodView> {
    if l <= s.len() {
        s.take(l)
    } else {
        s
    }
}

/// Every image URL rewritten against `base`.
pub open spec fn rewrite_all(s: Seq<FoodView>, base: Seq<char>) -> Seq<FoodView> {
    Seq::new(s.len(), |i: int| with_rewritten_url(s[i], base))
}

/// [`crate::ranker::rank_perm`], stated over food views.
pub open spec fn rank_perm_v(
    input: Seq<FoodView>,
    output: Seq<FoodView>,
    p: Seq<int>,
    ql: Seq<char>,
) -> bool {
    &&& p.len() == input.len()
    &&& output.len() == input.len()
    &&& (forall|k: int| 0 <= k < p.len() ==> 0 <= #[trigger] p[k] < input.len())
    &&& (forall|a: int, b: int| 0 <= a < b < p.len() ==> p[a] != p[b])
    &&& (forall|k: int| 0 <= k < p.len() ==> output[k] == input[#[trigger] p[k]])
    &&& (forall|a: int, b: int|
        0 <= a < b < p.len() ==> crate::ranker::food_score(input[#[trigger] p[a]], ql)
            > crate::ranker::food_score(input[#[trigger] p[b]], ql) || (crate::ranker::food_score(
            input[p[a]],
            ql,
        ) == crate::ranker::food_score(input[p[b]], ql) && p[a] < p[b]))
}

/// Every retained entry is an entry of the original list.
proof fn lemma_retain_member(s: Seq<FoodView>, k: int)
    requires
        0 <= k < retain_verified(s).len(),
    ensures
        exists|i: int| 0 <= i < s.len() && s[i] == retain_verified(s)[k],
    decreases s.len(),
{
    if s.len() > 0 {
        let prev = retain_verified(s.drop_last());
        if k < prev.len() {
            lemma_retain_member(s.drop_last(), k);
            let i = choose|i: int| 0 <= i < s.drop_last().len() && s.drop_last()[i] == prev[k];
            assert(s[i] == retain_verified(s)[k]);
        } else {
            assert(s[s.len() - 1] == retain_verified(s)[k]);
        }
    }
}

/// Every retained entry is verified.
proof fn lemma_retain_verified(s: Seq<FoodView>)
    ensures
        forall|k: int|
            0 <= k < retain_verified(s).len() ==> (#[trigger] retain_verified(s)[k]).verified
                == Some(true),
    decreases s.len(),
{
    if s.len() > 0 {
        lemma_retain_verified(s.drop_last());
    }
}

/// Retaining keeps a score-sorted list score-sorted.
proof fn lemma_retain_sorted(s: Seq<FoodView>, ql: Seq<char>)
    requires
        forall|a: int, b: int|
            0 <= a <= b < s.len() ==> crate::ranker::food_score(s[a], ql)
                >= crate::ranker::food_score(s[b], ql),
    ensures
        forall|a: int, b: int|
            0 <= a <= b < retain_verified(s).len() ==> crate::ranker::food_score(
                retain_verified(s)[a],
                ql,
            ) >= crate::ranker::food_score(retain_verified(s)[b], ql),
    decreases s.len(),
{
    if s.len() > 0 {
        lemma_retain_sorted(s.drop_last(), ql);
        let r = retain_verified(s);
        let prev = retain_verified(s.drop_last());
        assert forall|a: int, b: int|
            0 <= a <= b < r.len() implies crate::ranker::food_score(r[a], ql)
            >= crate::ranker::food_score(r[b], ql) by {
            if b < prev.len() {
            } else if b >= prev.len() && s.last().verified == Some(true) {
                assert(r[b] == s.last());
                if a < prev.len() {
                    lemma_retain_member(s.drop_last(), a);
                    let i = choose|i: int|
                        0 <= i < s.drop_last().len() && s.drop_last()[i] == prev[a];
                    assert(s[i] == r[a]);
                    assert(crate::ranker::food_score(s[i], ql) >= crate::ranker::food_score(
                        s[s.len() - 1],
                        ql,
                    ));
                }
            }
        }
    }
}

/// Keeps only the verified entries of a result list, in place.
#[verifier::loop_isolation(false)]
fn retain_verified_exec(foods: &mut Vec<Food>)
    ensures
        views_of(final(foods)@) == retain_verified(views_of(old(foods)@)),
{
    let ghost input = views_of(foods@);
    let n = foods.len();
    let mut out: Vec<Food> = Vec::new();
    let mut i: usize = 0;
    proof {
        assert(views_of(foods@).take(0) =~= Seq::<FoodView>::empty());
    }
    while i < n
        invariant
            i <= n,
            foods@.len() == n - i,
            views_of(foods@) == input.skip(i as int),
            views_of(out@) == retain_verified(input.take(i as int)),
        decreases n - i,
    {
        proof {
            assert(views_of(foods@)[0] == foods@[0]@);
            assert(input.skip(i as int)[0] == input[i as int]);
            assert(views_of(foods@.remove(0)) =~= views_of(foods@).remove(0));
            assert(views_of(foods@).remove(0) =~= input.skip(i + 1));
            assert(input.take(i + 1).drop_last() =~= input.take(i as int));
            assert(input.take(i + 1).last() == input[i as int]);
        }
        let f = foods.remove(0);
        let keep = match f.verified {
            Some(true) => true,
            _ => false,
        };
        let ghost prev = views_of(out@);
        if keep {
            out.push(f);
            proof {
                assert(views_of(out@) =~= prev + seq![input[i as int]]);
            }
        } else {
            proof {
                assert(retain_verified(input.take(i + 1)) =~= prev);
            }
        }
        i += 1;
    }
    proof {
        assert(input.take(n as int) =~= input);
    }
    *foods = out;
}

/// Handles `GET /foods/search`: size and limit checks, sanitation,
/// the mode dispatch, ranking for description searches, the filter on
/// unverified entries, truncation to the limit and image-URL
/// rewriting.  Every returned food is verified, the list never
/// exceeds the limit, and for description searches it is ordered by
/// non-increasing relevance.
#[verifier::loop_isolation(false)]
pub fn foods_search(
    store: &Store,
    params: &SearchParams,
    search_max_limit: u64,
    static_url: &str,
) -> (r: Result<Vec<Food>, ApiError>)
    requires
        wf(store@),
    ensures
        r is Ok <==> search_params_ok(params@, search_max_limit),
        r matches Err(e) ==> e.status == 400,
        r matches Ok(v) ==> {
            let lim = (effective_limit(params@.limit) as usize) as int;
            let ql = crate::ranker::unicode_lower_of(params@.q);
            &&& v@.len() <= lim
            &&& (forall|k: int|
                0 <= k < v@.len() ==> (#[trigger] v@[k])@.verified == Some(true))
            &&& (mode_is_description(params@.mode) ==> (forall|a: int, b: int|
                0 <= a <= b < v@.len() ==> crate::ranker::food_score(v@[a]@, ql)
                    >= crate::ranker::food_score(v@[b]@, ql)) && exists|ranked: Seq<FoodView>, p: Seq<int>|
                rank_perm_v(
                    search_desc_upto(store@, params@.q, store@.foods.len() as int),
                    ranked,
                    p,
                    ql,
                ) && views_of(v@) == rewrite_all(
                    take_at_most(retain_verified(ranked), lim),
                    static_url@,
                ))
            &&& (!mode_is_description(params@.mode) && mode_is_tag(params@.mode) ==> views_of(v@)
                == rewrite_all(
                take_at_most(
                    retain_verified(search_tag_upto(store@, params@.q, store@.foods.len() as int)),
                    lim,
                ),
                static_url@,
            ))
        },
{
    if params.size() > 96 {
        return Err(
            ApiError::new(
                400,
                "G\u{00F6}nderdi\u{011F}iniz sorgu 96 bayt limitini a\u{015F}\u{0131}yor!",
            ),
        );
    }
    let limit = match params.limit {
        Some(l) => l,
        None => 5,
    };
    if limit > search_max_limit {
        return Err(ApiError::new(400, "Arama limitini ge\u{00E7}tiniz!"));
    }
    if let Err(_) = sanitize_input(params.q.as_str()) {
        return Err(ApiError::new(400, "Sorgu ge\u{00E7}ersiz karakterler i\u{00E7}eriyor"));
    }
    let mut is_desc = false;
    let mut is_tag = false;
    match &params.mode {
        None => {
            is_desc = true;
        },
        Some(m) => {
            let ml = crate::text::lower_string(m.as_str());
            if crate::text::str_eq(ml.as_str(), "description") || crate::text::str_eq(
                ml.as_str(),
                "name",
            ) {
                is_desc = true;
            } else if crate::text::str_eq(ml.as_str(), "tag") {
                is_tag = true;
            }
        },
    }
    let ghost ql = crate::ranker::unicode_lower_of(params@.q);
    if is_desc {
        let mut found = store.search_foods_by_description_wild(params.q.as_str());
        let ghost searched = views_of(found@);
        let ghost foundpre = found@;
        crate::ranker::sort_foods_by_query(&mut found, params.q.as_str());
        let ghost rankedf = found@;
        let ghost ranked = views_of(found@);
        proof {
            let p = choose|p: Seq<int>| crate::ranker::rank_perm(foundpre, rankedf, p, ql);
            assert(crate::ranker::rank_perm(foundpre, rankedf, p, ql));
            assert(rank_perm_v(searched, ranked, p, ql)) by {
                assert forall|k: int| 0 <= k < p.len() implies ranked[k] == searched[
                    #[trigger] p[k]
                ] by {
                    assert(rankedf[k] == foundpre[p[k]]);
                    assert(ranked[k] == rankedf[k]@);
                    assert(searched[p[k]] == foundpre[p[k]]@);
                }
            }
            assert forall|a: int, b: int| 0 <= a <= b < ranked.len() implies
                crate::ranker::food_score(ranked[a], ql) >= crate::ranker::food_score(
                ranked[b],
                ql,
            ) by {
                assert(ranked[a] == rankedf[a]@);
                assert(ranked[b] == rankedf[b]@);
            }
        }
        retain_verified_exec(&mut found);
        proof {
            lemma_retain_verified(ranked);
            lemma_retain_sorted(ranked, ql);
        }
        found.truncate(limit as usize);
        let ghost truncated = views_of(found@);
        proof {
            assert(truncated =~= take_at_most(retain_verified(ranked), (limit as usize) as int))
                by {
                if (limit as usize) as int <= retain_verified(ranked).len() {
                    assert forall|k: int| 0 <= k < truncated.len() implies truncated[k]
                        == retain_verified(ranked)[k] by {}
                }
            }
        }
        fix_image_urls(static_url, &mut found);
        proof {
            assert(views_of(found@) =~= rewrite_all(truncated, static_url@));
            let lim = (limit as usize) as int;
            let retained = retain_verified(ranked);
            let p = choose|p: Seq<int>| crate::ranker::rank_perm(foundpre, rankedf, p, ql);
            assert(rank_perm_v(searched, ranked, p, ql));
            assert(truncated == take_at_most(retained, lim));
            assert forall|k: int| 0 <= k < truncated.len() implies truncated[k] == retained[k] by {}
            assert forall|k: int| 0 <= k < found@.len() implies (#[trigger] found@[k])@.verified
                == Some(true) by {
                assert(views_of(found@)[k] == found@[k]@);
                assert(found@[k]@ == with_rewritten_url(truncated[k], static_url@));
                assert(retained[k].verified == Some(true));
            }
            assert forall|a: int, b: int| 0 <= a <= b < found@.len() implies
                crate::ranker::food_score(found@[a]@, ql) >= crate::ranker::food_score(
                found@[b]@,
                ql,
            ) by {
                assert(views_of(found@)[a] == found@[a]@);
                assert(views_of(found@)[b] == found@[b]@);
                assert(found@[a]@ == with_rewritten_url(truncated[a], static_url@));
                assert(found@[b]@ == with_rewritten_url(truncated[b], static_url@));
                assert(crate::ranker::food_score(retained[a], ql) >= crate::ranker::food_score(
                    retained[b],
                    ql,
                ));
            }
            assert(found@.len() <= lim);
            assert(exists|rk: Seq<FoodView>, pp: Seq<int>|
                rank_perm_v(searched, rk, pp, ql) && views_of(found@) == rewrite_all(
                    take_at_most(retain_verified(rk), lim),
                    static_url@,
                ));
        }
        Ok(found)
    } else if is_tag {
        let mut found = store.search_foods_by_tag_wild(params.q.as_str());
        let ghost searched = views_of(found@);
        retain_verified_exec(&mut found);
        found.truncate(limit as usize);
        let ghost truncated = views_of(found@);
        proof {
            lemma_retain_verified(searched);
            assert(truncated =~= take_at_most(retain_verified(searched), (limit as usize) as int));
        }
        fix_image_urls(static_url, &mut found);
        proof {
            assert(views_of(found@) =~= rewrite_all(truncated, static_url@));
            let lim = (limit as usize) as int;
            let retained = retain_verified(searched);
            assert(truncated == take_at_most(retained, lim));
            assert forall|k: int| 0 <= k < truncated.len() implies truncated[k] == retained[k] by {}
            assert forall|k: int| 0 <= k < found@.len() implies (#[trigger] found@[k])@.verified
                == Some(true) by {
                assert(views_of(found@)[k] == found@[k]@);
                assert(found@[k]@ == with_rewritten_url(truncated[k], static_url@));
                assert(retained[k].verified == Some(true));
            }
            assert(found@.len() <= lim);
        }
        Ok(found)
    } else {
        Err(ApiError::new(400, "Ge\u{00E7}ersiz sorgu!"))
    }
}

} // verus!
