//! The relational catalog store: the food table, the normalized side
//! tables (sources, images, tags, allergens, serving descriptions) and
//! the link tables joining them.
//!
//! The store state lives in memory; the surrounding application opens
//! the embedded database file, replays these rows into it and reloads
//! them at startup.  Every mutation goes through [`Store::insert_food`],
//! whose contract states the complete new state, so ingestion is
//! all-or-nothing by construction.

use vstd::prelude::*;
use crate::food::{Food, FoodView, Nutrition, Serving, ServingView};
use crate::slug::slug_of;
use crate::text::{contains_seq, lower, lower_string, contains_exec, chars_of};

verus! {

/// Upper bound on the number of rows of any one table; inserts fail
/// once a table would outgrow it, which keeps every id computation in
/// machine range.
pub const ROW_CAP: usize = 1_000_000_000;

/// Errors reported by the store.
#[derive(Clone, Copy, Debug, PartialEq, Eq, Structural)]
pub enum StoreError {
    /// A food with the same description is already present.
    AlreadyExists,
    /// No row matches the request.
    NotFound,
    /// The row could not be written: its slug collides with an
    /// existing row, or a table is at capacity.
    Failure,
}

/// One persisted food row.  `source_id` and `image_id` are 1-based
/// references into the side tables.
pub struct StoredFood {
    pub id: u64,
    pub slug: String,
    pub description: String,
    pub verified: bool,
    pub source_id: u64,
    pub image_id: u64,
    pub nutrition: Nutrition,
}

/// Mathematical value of a [`StoredFood`].
#[verifier::ext_equal]
pub struct RowView {
    pub id: int,
    pub slug: Seq<char>,
    pub description: Seq<char>,
    pub verified: bool,
    pub source_id: int,
    pub image_id: int,
    pub nutrition: Nutrition,
}

impl View for StoredFood {
    type V = RowView;

    open spec fn view(&self) -> RowView {
        RowView {
            id: self.id as int,
            slug: self.slug@,
            description: self.description@,
            verified: self.verified,
            source_id: self.source_id as int,
            image_id: self.image_id as int,
            nutrition: self.nutrition,
        }
    }
}

/// A food-to-item link row (tags and allergens).
#[derive(Clone, Copy, Debug, PartialEq, Eq, Structural)]
pub struct Link {
    pub food_id: u64,
    pub item_id: u64,
}

/// Mathematical value of a [`Link`].
pub struct LinkView {
    pub food_id: int,
    pub item_id: int,
}

impl View for Link {
    type V = LinkView;

    open spec fn view(&self) -> LinkView {
        LinkView { food_id: self.food_id as int, item_id: self.item_id as int }
    }
}

/// A food-to-serving link row, carrying the portion weight.
#[derive(Clone, Copy, Debug, PartialEq, Eq, Structural)]
pub struct ServingLink {
    pub food_id: u64,
    pub serving_id: u64,
    pub weight: u64,
}

/// Mathematical value of a [`ServingLink`].
pub struct ServingLinkView {
    pub food_id: int,
    pub serving_id: int,
    pub weight: u64,
}

impl View for ServingLink {
    type V = ServingLinkView;

    open spec fn view(&self) -> ServingLinkView {
        ServingLinkView {
            food_id: self.food_id as int,
            serving_id: self.serving_id as int,
            weight: self.weight,
        }
    }
}

/// The in-memory catalog store.
pub struct Store {
    pub foods: Vec<StoredFood>,
    pub sources: Vec<String>,
    pub images: Vec<String>,
    pub tags: Vec<String>,
    pub allergens: Vec<String>,
    pub serving_descs: Vec<String>,
    pub food_tags: Vec<Link>,
    pub food_allergens: Vec<Link>,
    pub food_servings: Vec<ServingLink>,
}

/// Mathematical value of a [`Store`].
#[verifier::ext_equal]
pub struct StoreView {
    pub foods: Seq<RowView>,
    pub sources: Seq<Seq<char>>,
    pub images: Seq<Seq<char>>,
    pub tags: Seq<Seq<char>>,
    pub allergens: Seq<Seq<char>>,
    pub serving_descs: Seq<Seq<char>>,
    pub food_tags: Seq<LinkView>,
    pub food_allergens: Seq<LinkView>,
    pub food_servings: Seq<ServingLinkView>,
}

/// The sequence of views of a sequence of food rows.
pub open spec fn rows_view(s: Seq<StoredFood>) -> Seq<RowView> {
    Seq::new(s.len(), |i: int| s[i]@)
}

/// The sequence of views of a sequence of links.
pub open spec fn links_view(s: Seq<Link>) -> Seq<LinkView> {
    Seq::new(s.len(), |i: int| s[i]@)
}

/// The sequence of views of a sequence of serving links.
pub open spec fn srv_links_view(s: Seq<ServingLink>) -> Seq<ServingLinkView> {
    Seq::new(s.len(), |i: int| s[i]@)
}

impl View for Store {
    type V = StoreView;

    open spec fn view(&self) -> StoreView {
        StoreView {
            foods: rows_view(self.foods@),
            sources: self.sources.deep_view(),
            images: self.images.deep_view(),
            tags: self.tags.deep_view(),
            allergens: self.allergens.deep_view(),
            serving_descs: self.serving_descs.deep_view(),
            food_tags: links_view(self.food_tags@),
            food_allergens: links_view(self.food_allergens@),
            food_servings: srv_links_view(self.food_servings@),
        }
    }
}

/// No two entries of `l` are equal.
pub open spec fn unique_seqs(l: Seq<Seq<char>>) -> bool {
    forall|i: int, j: int| 0 <= i < j < l.len() ==> l[i] != l[j]
}

/// Every entry of `l` is already in lower case.
pub open spec fn all_lower(l: Seq<Seq<char>>) -> bool {
    forall|i: int| 0 <= i < l.len() ==> l[i] == lower(l[i])
}

/// Link rows reference valid ids and no pair occurs twice.
pub open spec fn links_ok(links: Seq<LinkView>, nfoods: int, nitems: int) -> bool {
    &&& forall|i: int|
        0 <= i < links.len() ==> 1 <= #[trigger] links[i].food_id <= nfoods && 1 <= links[i].item_id
            <= nitems
    &&& forall|i: int, j: int|
        0 <= i < j < links.len() ==> !(#[trigger] links[i].food_id == #[trigger] links[j].food_id
            && links[i].item_id == links[j].item_id)
}

/// Serving link rows reference valid ids and no (food, serving) pair
/// occurs twice.
pub open spec fn srv_links_ok(links: Seq<ServingLinkView>, nfoods: int, nitems: int) -> bool {
    &&& forall|i: int|
        0 <= i < links.len() ==> 1 <= #[trigger] links[i].food_id <= nfoods && 1 <= links[i].serving_id
            <= nitems
    &&& forall|i: int, j: int|
        0 <= i < j < links.len() ==> !(#[trigger] links[i].food_id == #[trigger] links[j].food_id
            && links[i].serving_id == links[j].serving_id)
}

/// Well-formedness of the store state: dense 1-based ids, slugs derived
/// from descriptions, unique descriptions and slugs, deduplicated and
/// lower-cased tag and allergen tables, and valid, duplicate-free links.
pub open spec fn wf(sv: StoreView) -> bool {
    &&& sv.foods.len() <= ROW_CAP
    &&& sv.sources.len() <= ROW_CAP
    &&& sv.images.len() <= ROW_CAP
    &&& sv.tags.len() <= ROW_CAP
    &&& sv.allergens.len() <= ROW_CAP
    &&& sv.serving_descs.len() <= ROW_CAP
    &&& sv.food_tags.len() <= ROW_CAP
    &&& sv.food_allergens.len() <= ROW_CAP
    &&& sv.food_servings.len() <= ROW_CAP
    &&& forall|i: int|
        0 <= i < sv.foods.len() ==> {
            &&& (#[trigger] sv.foods[i]).id == i + 1
            &&& sv.foods[i].slug == slug_of(sv.foods[i].description)
            &&& 1 <= sv.foods[i].source_id <= sv.sources.len()
            &&& 1 <= sv.foods[i].image_id <= sv.images.len()
        }
    &&& forall|i: int, j: int|
        0 <= i < j < sv.foods.len() ==> (#[trigger] sv.foods[i]).description != (
        #[trigger] sv.foods[j]).description
    &&& forall|i: int, j: int|
        0 <= i < j < sv.foods.len() ==> (#[trigger] sv.foods[i]).slug != (
        #[trigger] sv.foods[j]).slug
    &&& unique_seqs(sv.sources)
    &&& unique_seqs(sv.images)
    &&& unique_seqs(sv.tags)
    &&& unique_seqs(sv.allergens)
    &&& unique_seqs(sv.serving_descs)
    &&& all_lower(sv.tags)
    &&& all_lower(sv.allergens)
    &&& links_ok(sv.food_tags, sv.foods.len() as int, sv.tags.len() as int)
    &&& links_ok(sv.food_allergens, sv.foods.len() as int, sv.allergens.len() as int)
    &&& srv_links_ok(sv.food_servings, sv.foods.len() as int, sv.serving_descs.len() as int)
}

/// Index of the first occurrence of `x` in `list` at or after `i`, or
/// -1 if there is none.
pub open spec fn idx_of(list: Seq<Seq<char>>, x: Seq<char>, i: nat) -> int
    decreases list.len() - i when i <= list.len()
{
    if i >= list.len() {
        -1
    } else if list[i as int] == x {
        i as int
    } else {
        idx_of(list, x, i + 1)
    }
}

/// Soundness and minimality of [`idx_of`].
pub proof fn lemma_idx_of(list: Seq<Seq<char>>, x: Seq<char>, i: nat)
    requires
        i <= list.len(),
    ensures
        -1 <= idx_of(list, x, i) < list.len(),
        idx_of(list, x, i) >= 0 ==> i <= idx_of(list, x, i) && list[idx_of(list, x, i)] == x,
        idx_of(list, x, i) < 0 ==> forall|j: int| i <= j < list.len() ==> list[j] != x,
        forall|j: int| i <= j < idx_of(list, x, i) ==> list[j] != x,
    decreases list.len() - i,
{
    if i < list.len() && list[i as int] != x {
        lemma_idx_of(list, x, i + 1);
    }
}

/// `list` holds `x`.
pub open spec fn list_has(list: Seq<Seq<char>>, x: Seq<char>) -> bool {
    idx_of(list, x, 0) >= 0
}

/// Resolves `x` in a deduplicated table: returns the table (extended
/// by `x` if it was absent) and the 1-based id of `x` in it.
pub open spec fn resolve_item(list: Seq<Seq<char>>, x: Seq<char>) -> (Seq<Seq<char>>, int) {
    let i = idx_of(list, x, 0);
    if i >= 0 {
        (list, i + 1)
    } else {
        (list.push(x), list.len() as int + 1)
    }
}

/// A (food, item) pair is already linked.
pub open spec fn has_link(links: Seq<LinkView>, fid: int, iid: int) -> bool {
    exists|i: int| 0 <= i < links.len() && (#[trigger] links[i]).food_id == fid && links[i].item_id == iid
}

/// A (food, serving) pair is already linked.
pub open spec fn has_srv_link(links: Seq<ServingLinkView>, fid: int, sid: int) -> bool {
    exists|i: int|
        0 <= i < links.len() && (#[trigger] links[i]).food_id == fid && links[i].serving_id == sid
}

/// Folds the tag (or allergen) list of a new food into the item table
/// and the link table: each entry is lower-cased, resolved in the
/// table and linked to `fid` unless that link already exists.
pub open spec fn insert_item_links(
    items: Seq<Seq<char>>,
    links: Seq<LinkView>,
    fid: int,
    ts: Seq<Seq<char>>,
) -> (Seq<Seq<char>>, Seq<LinkView>)
    decreases ts.len(),
{
    if ts.len() == 0 {
        (items, links)
    } else {
        let t = lower(ts[0]);
        let r = resolve_item(items, t);
        let links1 = if has_link(links, fid, r.1) {
            links
        } else {
            links.push(LinkView { food_id: fid, item_id: r.1 })
        };
        insert_item_links(r.0, links1, fid, ts.drop_first())
    }
}

/// Folds the serving list of a new food into the serving-description
/// table and the serving link table.  Serving descriptions keep their
/// case; deduplication is by exact description.
pub open spec fn insert_serving_links(
    items: Seq<Seq<char>>,
    links: Seq<ServingLinkView>,
    fid: int,
    ss: Seq<ServingView>,
) -> (Seq<Seq<char>>, Seq<ServingLinkView>)
    decreases ss.len(),
{
    if ss.len() == 0 {
        (items, links)
    } else {
        let r = resolve_item(items, ss[0].description);
        let links1 = if has_srv_link(links, fid, r.1) {
            links
        } else {
            links.push(ServingLinkView { food_id: fid, serving_id: r.1, weight: ss[0].weight })
        };
        insert_serving_links(r.0, links1, fid, ss.drop_first())
    }
}

/// A food with this description is present.
pub open spec fn has_description(sv: StoreView, d: Seq<char>) -> bool {
    exists|i: int| 0 <= i < sv.foods.len() && (#[trigger] sv.foods[i]).description == d
}

/// A food with this slug is present.
pub open spec fn has_slug(sv: StoreView, s: Seq<char>) -> bool {
    exists|i: int| 0 <= i < sv.foods.len() && (#[trigger] sv.foods[i]).slug == s
}

/// Every table still has room for the rows that inserting `f` could
/// add at most.
pub open spec fn has_capacity(sv: StoreView, f: FoodView) -> bool {
    &&& sv.foods.len() < ROW_CAP
    &&& sv.sources.len() < ROW_CAP
    &&& sv.images.len() < ROW_CAP
    &&& sv.tags.len() + f.tags.len() <= ROW_CAP
    &&& sv.allergens.len() + f.allergens.len() <= ROW_CAP
    &&& sv.serving_descs.len() + f.servings.len() <= ROW_CAP
    &&& sv.food_tags.len() + f.tags.len() <= ROW_CAP
    &&& sv.food_allergens.len() + f.allergens.len() <= ROW_CAP
    &&& sv.food_servings.len() + f.servings.len() <= ROW_CAP
}

/// The store state after ingesting `f`: source and image resolved or
/// created, the food row appended with its derived slug and defaulted
/// `verified`, and tags, allergens and servings folded in.
pub open spec fn spec_insert_food(sv: StoreView, f: FoodView) -> StoreView {
    let rs = resolve_item(sv.sources, f.source);
    let ri = resolve_item(sv.images, f.image_url);
    let id = sv.foods.len() as int + 1;
    let row = RowView {
        id: id,
        slug: slug_of(f.description),
        description: f.description,
        verified: match f.verified {
            Some(v) => v,
            None => true,
        },
        source_id: rs.1,
        image_id: ri.1,
        nutrition: f.nutrition,
    };
    let rt = insert_item_links(sv.tags, sv.food_tags, id, f.tags);
    let ra = insert_item_links(sv.allergens, sv.food_allergens, id, f.allergens);
    let rv = insert_serving_links(sv.serving_descs, sv.food_servings, id, f.servings);
    StoreView {
        foods: sv.foods.push(row),
        sources: rs.0,
        images: ri.0,
        tags: rt.0,
        allergens: ra.0,
        serving_descs: rv.0,
        food_tags: rt.1,
        food_allergens: ra.1,
        food_servings: rv.1,
    }
}

/// Finds the first entry of `list` equal to `x`.
fn find_str(list: &Vec<String>, x: &String) -> (r: Option<usize>)
    ensures
        match r {
            Some(i) => i as int == idx_of(list.deep_view(), x@, 0),
            None => idx_of(list.deep_view(), x@, 0) == -1,
        },
{
    let n = list.len();
    let mut i: usize = 0;
    while i < n
        invariant
            n == list@.len(),
            i <= n,
            idx_of(list.deep_view(), x@, 0) == idx_of(list.deep_view(), x@, i as nat),
        decreases n - i,
    {
        proof {
            assert(list.deep_view()[i as int] == list@[i as int]@);
        }
        if list[i].eq(x) {
            proof {
                assert(idx_of(list.deep_view(), x@, i as nat) == i as int);
            }
            return Some(i);
        }
        proof {
            assert(idx_of(list.deep_view(), x@, i as nat) == idx_of(
                list.deep_view(),
                x@,
                (i + 1) as nat,
            ));
        }
        i += 1;
    }
    None
}

/// Resolves `x` in a deduplicated table, inserting it if absent, and
/// returns its 1-based id.
fn resolve_in(list: &mut Vec<String>, x: &String) -> (r: u64)
    requires
        old(list)@.len() < ROW_CAP,
    ensures
        ({
            let rr = resolve_item(old(list).deep_view(), x@);
            final(list).deep_view() == rr.0 && r as int == rr.1
        }),
{
    proof {
        lemma_idx_of(list.deep_view(), x@, 0);
    }
    match find_str(list, x) {
        Some(i) => (i as u64) + 1,
        None => {
            let id = (list.len() as u64) + 1;
            list.push(x.clone());
            proof {
                assert(final(list).deep_view() =~= old(list).deep_view().push(x@));
            }
            id
        },
    }
}

/// Checks whether a (food, item) link is already present.
fn has_link_exec(links: &Vec<Link>, fid: u64, iid: u64) -> (r: bool)
    ensures
        r == has_link(links_view(links@), fid as int, iid as int),
{
    let n = links.len();
    let mut i: usize = 0;
    while i < n
        invariant
            n == links@.len(),
            i <= n,
            forall|k: int|
                0 <= k < i ==> !((#[trigger] links_view(links@)[k]).food_id == fid as int
                    && links_view(links@)[k].item_id == iid as int),
        decreases n - i,
    {
        let l = links[i];
        if l.food_id == fid && l.item_id == iid {
            proof {
                assert(links_view(links@)[i as int] == links@[i as int]@);
            }
            return true;
        }
        proof {
            assert(links_view(links@)[i as int] == links@[i as int]@);
        }
        i += 1;
    }
    false
}

/// Checks whether a (food, serving) link is already present.
fn has_srv_link_exec(links: &Vec<ServingLink>, fid: u64, sid: u64) -> (r: bool)
    ensures
        r == has_srv_link(srv_links_view(links@), fid as int, sid as int),
{
    let n = links.len();
    let mut i: usize = 0;
    while i < n
        invariant
            n == links@.len(),
            i <= n,
            forall|k: int|
                0 <= k < i ==> !((#[trigger] srv_links_view(links@)[k]).food_id == fid as int
                    && srv_links_view(links@)[k].serving_id == sid as int),
        decreases n - i,
    {
        let l = links[i];
        if l.food_id == fid && l.serving_id == sid {
            proof {
                assert(srv_links_view(links@)[i as int] == links@[i as int]@);
            }
            return true;
        }
        proof {
            assert(srv_links_view(links@)[i as int] == links@[i as int]@);
        }
        i += 1;
    }
    false
}

impl Store {
    /// Creates an empty store.
    pub fn new() -> (r: Store)
        ensures
            r@.foods.len() == 0,
            r@.sources.len() == 0,
            r@.images.len() == 0,
            r@.tags.len() == 0,
            r@.allergens.len() == 0,
            r@.serving_descs.len() == 0,
            r@.food_tags.len() == 0,
            r@.food_allergens.len() == 0,
            r@.food_servings.len() == 0,
            wf(r@),
    {
        Store {
            foods: Vec::new(),
            sources: Vec::new(),
            images: Vec::new(),
            tags: Vec::new(),
            allergens: Vec::new(),
            serving_descs: Vec::new(),
            food_tags: Vec::new(),
            food_allergens: Vec::new(),
            food_servings: Vec::new(),
        }
    }

    /// A food with this exact description is already stored.
    pub fn food_exists_by_description(&self, description: &str) -> (r: bool)
        ensures
            r == has_description(self@, description@),
    {
        let n = self.foods.len();
        let mut i: usize = 0;
        while i < n
            invariant
                n == self.foods@.len(),
                i <= n,
                forall|k: int|
                    0 <= k < i ==> (#[trigger] self@.foods[k]).description != description@,
            decreases n - i,
        {
            proof {
                assert(self@.foods[i as int] == self.foods@[i as int]@);
            }
            if crate::text::str_eq(self.foods[i].description.as_str(), description) {
                return true;
            }
            i += 1;
        }
        false
    }

    /// A food with this slug is already stored.
    fn slug_taken(&self, slug: &String) -> (r: bool)
        ensures
            r == has_slug(self@, slug@),
    {
        let n = self.foods.len();
        let mut i: usize = 0;
        while i < n
            invariant
                n == self.foods@.len(),
                i <= n,
                forall|k: int| 0 <= k < i ==> (#[trigger] self@.foods[k]).slug != slug@,
            decreases n - i,
        {
            proof {
                assert(self@.foods[i as int] == self.foods@[i as int]@);
            }
            if self.foods[i].slug.eq(slug) {
                return true;
            }
            i += 1;
        }
        false
    }

    /// Every table still has room for the rows that inserting `food`
    /// could add at most.
    fn capacity_ok(&self, food: &Food) -> (r: bool)
        ensures
            r == has_capacity(self@, food@),
    {
        let nt = food.tags.len();
        let na = food.allergens.len();
        let ns = food.servings.len();
        if nt > ROW_CAP || na > ROW_CAP || ns > ROW_CAP {
            return false;
        }
        self.foods.len() < ROW_CAP && self.sources.len() < ROW_CAP && self.images.len() < ROW_CAP
            && self.tags.len() <= ROW_CAP - nt && self.allergens.len() <= ROW_CAP - na
            && self.serving_descs.len() <= ROW_CAP - ns && self.food_tags.len() <= ROW_CAP - nt
            && self.food_allergens.len() <= ROW_CAP - na && self.food_servings.len() <= ROW_CAP
            - ns
    }
}

/// A link table stays valid against a wider item table, and adding
/// one fresh, in-range link keeps it valid.
proof fn lemma_links_ok_grow(links: Seq<LinkView>, nf: int, ni: int, ni2: int, fid: int, iid: int)
    requires
        links_ok(links, nf, ni),
        ni <= ni2,
        1 <= fid <= nf,
        1 <= iid <= ni2,
    ensures
        links_ok(links, nf, ni2),
        !has_link(links, fid, iid) ==> links_ok(
            links.push(LinkView { food_id: fid, item_id: iid }),
            nf,
            ni2,
        ),
{
    if !has_link(links, fid, iid) {
        let links1 = links.push(LinkView { food_id: fid, item_id: iid });
        assert forall|i: int, j: int| 0 <= i < j < links1.len() implies !(
        #[trigger] links1[i].food_id == #[trigger] links1[j].food_id && links1[i].item_id
            == links1[j].item_id) by {
            if j == links.len() {
                assert(!(links[i].food_id == fid && links[i].item_id == iid));
            }
        }
    }
}

/// The serving-link analogue of [`lemma_links_ok_grow`].
proof fn lemma_srv_links_ok_grow(
    links: Seq<ServingLinkView>,
    nf: int,
    ni: int,
    ni2: int,
    fid: int,
    sid: int,
    w: u64,
)
    requires
        srv_links_ok(links, nf, ni),
        ni <= ni2,
        1 <= fid <= nf,
        1 <= sid <= ni2,
    ensures
        srv_links_ok(links, nf, ni2),
        !has_srv_link(links, fid, sid) ==> srv_links_ok(
            links.push(ServingLinkView { food_id: fid, serving_id: sid, weight: w }),
            nf,
            ni2,
        ),
{
    if !has_srv_link(links, fid, sid) {
        let links1 = links.push(ServingLinkView { food_id: fid, serving_id: sid, weight: w });
        assert forall|i: int, j: int| 0 <= i < j < links1.len() implies !(
        #[trigger] links1[i].food_id == #[trigger] links1[j].food_id && links1[i].serving_id
            == links1[j].serving_id) by {
            if j == links.len() {
                assert(!(links[i].food_id == fid && links[i].serving_id == sid));
            }
        }
    }
}

/// Lower-casing is idempotent.
pub proof fn lemma_lower_idem(s: Seq<char>)
    ensures
        lower(lower(s)) == lower(s),
{
    assert(lower(lower(s)) =~= lower(s));
}

/// What resolving an entry does to a deduplicated table.
pub proof fn lemma_resolve_item(list: Seq<Seq<char>>, x: Seq<char>)
    requires
        unique_seqs(list),
    ensures
        ({
            let r = resolve_item(list, x);
            &&& unique_seqs(r.0)
            &&& list.len() <= r.0.len() <= list.len() + 1
            &&& (r.0.len() == list.len() ==> list_has(list, x))
            &&& forall|k: int| 0 <= k < list.len() ==> r.0[k] == list[k]
            &&& 1 <= r.1 <= r.0.len()
            &&& r.0[r.1 - 1] == x
            &&& (all_lower(list) && x == lower(x) ==> all_lower(r.0))
        }),
{
    lemma_idx_of(list, x, 0);
    let r = resolve_item(list, x);
    if idx_of(list, x, 0) < 0 {
        assert forall|i: int, j: int| 0 <= i < j < r.0.len() implies r.0[i] != r.0[j] by {
            if j == list.len() {
                assert(list[i] != x);
            }
        }
    }
}

/// What folding a tag or allergen list does to the item table and the
/// link table.
pub proof fn lemma_insert_item_links(
    items: Seq<Seq<char>>,
    links: Seq<LinkView>,
    fid: int,
    ts: Seq<Seq<char>>,
    nf: int,
)
    requires
        unique_seqs(items),
        all_lower(items),
        links_ok(links, nf, items.len() as int),
        1 <= fid <= nf,
    ensures
        ({
            let r = insert_item_links(items, links, fid, ts);
            &&& unique_seqs(r.0)
            &&& all_lower(r.0)
            &&& items.len() <= r.0.len() <= items.len() + ts.len()
            &&& (forall|k: int| 0 <= k < items.len() ==> r.0[k] == items[k])
            &&& links.len() <= r.1.len() <= links.len() + ts.len()
            &&& (forall|k: int| 0 <= k < links.len() ==> r.1[k] == links[k])
            &&& links_ok(r.1, nf, r.0.len() as int)
            &&& (forall|k: int| links.len() <= k < r.1.len() ==> (#[trigger] r.1[k]).food_id == fid)
        }),
    decreases ts.len(),
{
    if ts.len() > 0 {
        let t = lower(ts[0]);
        lemma_lower_idem(ts[0]);
        lemma_resolve_item(items, t);
        let rr = resolve_item(items, t);
        let nl = LinkView { food_id: fid, item_id: rr.1 };
        let links1 = if has_link(links, fid, rr.1) {
            links
        } else {
            links.push(nl)
        };
        lemma_links_ok_grow(links, nf, items.len() as int, rr.0.len() as int, fid, rr.1);
        assert(links_ok(links1, nf, rr.0.len() as int));
        lemma_insert_item_links(rr.0, links1, fid, ts.drop_first(), nf);
        let r = insert_item_links(items, links, fid, ts);
        assert forall|k: int| 0 <= k < links.len() implies r.1[k] == links[k] by {
            assert(r.1[k] == links1[k]);
        }
        assert forall|k: int| links.len() <= k < r.1.len() implies (#[trigger] r.1[k]).food_id
            == fid by {
            if k < links1.len() {
                assert(r.1[k] == links1[k]);
            }
        }
    }
}

/// What folding a serving list does to the serving-description table
/// and the serving link table.
pub proof fn lemma_insert_serving_links(
    items: Seq<Seq<char>>,
    links: Seq<ServingLinkView>,
    fid: int,
    ss: Seq<ServingView>,
    nf: int,
)
    requires
        unique_seqs(items),
        srv_links_ok(links, nf, items.len() as int),
        1 <= fid <= nf,
    ensures
        ({
            let r = insert_serving_links(items, links, fid, ss);
            &&& unique_seqs(r.0)
            &&& items.len() <= r.0.len() <= items.len() + ss.len()
            &&& (forall|k: int| 0 <= k < items.len() ==> r.0[k] == items[k])
            &&& links.len() <= r.1.len() <= links.len() + ss.len()
            &&& (forall|k: int| 0 <= k < links.len() ==> r.1[k] == links[k])
            &&& srv_links_ok(r.1, nf, r.0.len() as int)
            &&& (forall|k: int| links.len() <= k < r.1.len() ==> (#[trigger] r.1[k]).food_id == fid)
        }),
    decreases ss.len(),
{
    if ss.len() > 0 {
        lemma_resolve_item(items, ss[0].description);
        let rr = resolve_item(items, ss[0].description);
        let nl = ServingLinkView { food_id: fid, serving_id: rr.1, weight: ss[0].weight };
        let links1 = if has_srv_link(links, fid, rr.1) {
            links
        } else {
            links.push(nl)
        };
        lemma_srv_links_ok_grow(links, nf, items.len() as int, rr.0.len() as int, fid, rr.1, nl.weight);
        assert(srv_links_ok(links1, nf, rr.0.len() as int));
        lemma_insert_serving_links(rr.0, links1, fid, ss.drop_first(), nf);
        let r = insert_serving_links(items, links, fid, ss);
        assert forall|k: int| 0 <= k < links.len() implies r.1[k] == links[k] by {
            assert(r.1[k] == links1[k]);
        }
        assert forall|k: int| links.len() <= k < r.1.len() implies (#[trigger] r.1[k]).food_id
            == fid by {
            if k < links1.len() {
                assert(r.1[k] == links1[k]);
            }
        }
    }
}

/// Ingesting a fresh food preserves well-formedness.
pub proof fn lemma_wf_insert(sv: StoreView, f: FoodView)
    requires
        wf(sv),
        !has_description(sv, f.description),
        !has_slug(sv, slug_of(f.description)),
        has_capacity(sv, f),
    ensures
        wf(spec_insert_food(sv, f)),
{
    let id = sv.foods.len() as int + 1;
    lemma_resolve_item(sv.sources, f.source);
    lemma_resolve_item(sv.images, f.image_url);
    assert(links_ok(sv.food_tags, id, sv.tags.len() as int));
    assert(links_ok(sv.food_allergens, id, sv.allergens.len() as int));
    assert(srv_links_ok(sv.food_servings, id, sv.serving_descs.len() as int));
    lemma_insert_item_links(sv.tags, sv.food_tags, id, f.tags, id);
    lemma_insert_item_links(sv.allergens, sv.food_allergens, id, f.allergens, id);
    lemma_insert_serving_links(sv.serving_descs, sv.food_servings, id, f.servings, id);
    let r = spec_insert_food(sv, f);
    assert(forall|i: int|
        0 <= i < sv.foods.len() ==> r.foods[i] == sv.foods[i]);
    assert forall|i: int, j: int| 0 <= i < j < r.foods.len() implies (
    #[trigger] r.foods[i]).description != (#[trigger] r.foods[j]).description by {
        if j == sv.foods.len() {
            assert(sv.foods[i].description != f.description);
        }
    }
    assert forall|i: int, j: int| 0 <= i < j < r.foods.len() implies (#[trigger] r.foods[i]).slug
        != (#[trigger] r.foods[j]).slug by {
        if j == sv.foods.len() {
            assert(sv.foods[i].slug != slug_of(f.description));
        }
    }
}

/// Links hydrate the same items after the item table grows, as long
/// as every link points into the old part.
proof fn lemma_linked_items_extend(
    links: Seq<LinkView>,
    items: Seq<Seq<char>>,
    items2: Seq<Seq<char>>,
    fid: int,
)
    requires
        items.len() <= items2.len(),
        forall|k: int| 0 <= k < items.len() ==> items2[k] == items[k],
        forall|i: int| 0 <= i < links.len() ==> (#[trigger] links[i]).item_id <= items.len(),
    ensures
        linked_items(links, items2, fid) == linked_items(links, items, fid),
    decreases links.len(),
{
    if links.len() > 0 {
        lemma_linked_items_extend(links.drop_last(), items, items2, fid);
    }
}

/// A linked item shows up in the hydration.
proof fn lemma_linked_items_has(links: Seq<LinkView>, items: Seq<Seq<char>>, fid: int, iid: int)
    requires
        has_link(links, fid, iid),
        1 <= iid <= items.len(),
    ensures
        linked_items(links, items, fid).contains(items[iid - 1]),
    decreases links.len(),
{
    if links.len() > 0 {
        let l = links.last();
        if l.food_id == fid && l.item_id == iid {
            assert(linked_items(links, items, fid).last() == items[iid - 1]);
        } else {
            assert(has_link(links.drop_last(), fid, iid)) by {
                let i = choose|i: int|
                    0 <= i < links.len() && (#[trigger] links[i]).food_id == fid && links[i].item_id
                        == iid;
                assert(links.drop_last()[i] == links[i]);
            }
            lemma_linked_items_has(links.drop_last(), items, fid, iid);
            let x = items[iid - 1];
            let i = choose|i: int|
                0 <= i < linked_items(links.drop_last(), items, fid).len() && linked_items(
                    links.drop_last(),
                    items,
                    fid,
                )[i] == x;
            assert(linked_items(links, items, fid)[i] == x);
        }
    }
}

/// What the tag (or allergen) fold contributes to the hydration of
/// food `fid`: nothing is invented beyond the lower-cased entries, and
/// every entry shows up.
proof fn lemma_fold_items_content(
    items: Seq<Seq<char>>,
    links: Seq<LinkView>,
    fid: int,
    ts: Seq<Seq<char>>,
    nf: int,
)
    requires
        unique_seqs(items),
        all_lower(items),
        links_ok(links, nf, items.len() as int),
        1 <= fid <= nf,
    ensures
        ({
            let r = insert_item_links(items, links, fid, ts);
            &&& (forall|x: Seq<char>|
                linked_items(r.1, r.0, fid).contains(x) ==> linked_items(
                    links,
                    items,
                    fid,
                ).contains(x) || exists|j: int| 0 <= j < ts.len() && x == lower(#[trigger] ts[j]))
            &&& (forall|j: int|
                0 <= j < ts.len() ==> linked_items(r.1, r.0, fid).contains(lower(
                    #[trigger] ts[j],
                )))
        }),
    decreases ts.len(),
{
    lemma_insert_item_links(items, links, fid, ts, nf);
    let r = insert_item_links(items, links, fid, ts);
    if ts.len() > 0 {
        let t = lower(ts[0]);
        lemma_lower_idem(ts[0]);
        lemma_resolve_item(items, t);
        let rr = resolve_item(items, t);
        let nl = LinkView { food_id: fid, item_id: rr.1 };
        let links1 = if has_link(links, fid, rr.1) {
            links
        } else {
            links.push(nl)
        };
        lemma_links_ok_grow(links, nf, items.len() as int, rr.0.len() as int, fid, rr.1);
        assert(links_ok(links1, nf, rr.0.len() as int));
        lemma_fold_items_content(rr.0, links1, fid, ts.drop_first(), nf);
        lemma_insert_item_links(rr.0, links1, fid, ts.drop_first(), nf);
        // the base hydration over the grown table equals the old one,
        // plus possibly the new entry
        assert forall|ii: int| 0 <= ii < links.len() implies (#[trigger] links[ii]).item_id
            <= items.len() by {
            assert(1 <= links[ii].food_id);
        }
        lemma_linked_items_extend(links, items, rr.0, fid);
        assert(linked_items(links1, rr.0, fid).contains(t)) by {
            assert(has_link(links1, fid, rr.1)) by {
                if !has_link(links, fid, rr.1) {
                    assert(links1[links.len() as int] == nl);
                }
            }
            lemma_linked_items_has(links1, rr.0, fid, rr.1);
        }
        if !has_link(links, fid, rr.1) {
            assert(links.push(nl).drop_last() =~= links);
            assert(links.push(nl).last() == nl);
            assert(linked_items(links1, rr.0, fid) =~= linked_items(links, rr.0, fid) + seq![t]);
        }
        assert forall|x: Seq<char>|
            linked_items(r.1, r.0, fid).contains(x) implies linked_items(
            links,
            items,
            fid,
        ).contains(x) || exists|j: int| 0 <= j < ts.len() && x == lower(#[trigger] ts[j]) by {
            if linked_items(links1, rr.0, fid).contains(x) {
                if !has_link(links, fid, rr.1) {
                    if x != t {
                        let i = choose|i: int|
                            0 <= i < linked_items(links1, rr.0, fid).len() && linked_items(
                                links1,
                                rr.0,
                                fid,
                            )[i] == x;
                        assert(linked_items(links, rr.0, fid)[i] == x);
                        assert(linked_items(links, items, fid).contains(x));
                    } else {
                        assert(x == lower(ts[0]));
                    }
                } else {
                    assert(linked_items(links, items, fid).contains(x));
                }
            } else {
                let j = choose|j: int|
                    0 <= j < ts.drop_first().len() && x == lower(#[trigger] ts.drop_first()[j]);
                assert(ts.drop_first()[j] == ts[j + 1]);
            }
        }
        assert forall|j: int|
            0 <= j < ts.len() implies linked_items(r.1, r.0, fid).contains(lower(
            #[trigger] ts[j],
        )) by {
            if j == 0 {
                // t is hydrated after the first step and the fold only
                // extends the tables and link list
                assert(linked_items(links1, rr.0, fid).contains(t));
                let i = choose|i: int|
                    0 <= i < linked_items(links1, rr.0, fid).len() && linked_items(
                        links1,
                        rr.0,
                        fid,
                    )[i] == t;
                lemma_fold_preserves_hydration(rr.0, links1, fid, ts.drop_first(), nf, t);
            } else {
                assert(ts.drop_first()[j - 1] == ts[j]);
            }
        }
    }
}

/// An item already hydrated for `fid` stays hydrated through the fold.
proof fn lemma_fold_preserves_hydration(
    items: Seq<Seq<char>>,
    links: Seq<LinkView>,
    fid: int,
    ts: Seq<Seq<char>>,
    nf: int,
    x: Seq<char>,
)
    requires
        unique_seqs(items),
        all_lower(items),
        links_ok(links, nf, items.len() as int),
        1 <= fid <= nf,
        linked_items(links, items, fid).contains(x),
    ensures
        ({
            let r = insert_item_links(items, links, fid, ts);
            linked_items(r.1, r.0, fid).contains(x)
        }),
    decreases ts.len(),
{
    lemma_insert_item_links(items, links, fid, ts, nf);
    if ts.len() > 0 {
        let t = lower(ts[0]);
        lemma_lower_idem(ts[0]);
        lemma_resolve_item(items, t);
        let rr = resolve_item(items, t);
        let nl = LinkView { food_id: fid, item_id: rr.1 };
        let links1 = if has_link(links, fid, rr.1) {
            links
        } else {
            links.push(nl)
        };
        lemma_links_ok_grow(links, nf, items.len() as int, rr.0.len() as int, fid, rr.1);
        assert(links_ok(links1, nf, rr.0.len() as int));
        assert forall|ii: int| 0 <= ii < links.len() implies (#[trigger] links[ii]).item_id
            <= items.len() by {
            assert(1 <= links[ii].food_id);
        }
        lemma_linked_items_extend(links, items, rr.0, fid);
        assert(linked_items(links1, rr.0, fid).contains(x)) by {
            let i = choose|i: int|
                0 <= i < linked_items(links, items, fid).len() && linked_items(
                    links,
                    items,
                    fid,
                )[i] == x;
            if !has_link(links, fid, rr.1) {
                assert(links.push(nl).drop_last() =~= links);
                assert(links.push(nl).last() == nl);
                assert(linked_items(links1, rr.0, fid) =~= linked_items(links, rr.0, fid) + seq![
                    t,
                ]);
                assert(linked_items(links1, rr.0, fid)[i] == x);
            }
        }
        lemma_fold_preserves_hydration(rr.0, links1, fid, ts.drop_first(), nf, x);
    }
}

/// Links of other foods hydrate nothing for `fid`.
proof fn lemma_linked_items_none(links: Seq<LinkView>, items: Seq<Seq<char>>, fid: int)
    requires
        forall|i: int| 0 <= i < links.len() ==> (#[trigger] links[i]).food_id != fid,
    ensures
        linked_items(links, items, fid) == Seq::<Seq<char>>::empty(),
    decreases links.len(),
{
    if links.len() > 0 {
        lemma_linked_items_none(links.drop_last(), items, fid);
        assert(linked_items(links, items, fid) =~= Seq::<Seq<char>>::empty());
    }
}

/// Serving links of other foods hydrate nothing for `fid`.
proof fn lemma_linked_servings_none(links: Seq<ServingLinkView>, items: Seq<Seq<char>>, fid: int)
    requires
        forall|i: int| 0 <= i < links.len() ==> (#[trigger] links[i]).food_id != fid,
    ensures
        linked_servings(links, items, fid) == Seq::<ServingView>::empty(),
    decreases links.len(),
{
    if links.len() > 0 {
        lemma_linked_servings_none(links.drop_last(), items, fid);
        assert(linked_servings(links, items, fid) =~= Seq::<ServingView>::empty());
    }
}

/// Serving links hydrate the same servings after the description
/// table grows.
proof fn lemma_linked_servings_extend(
    links: Seq<ServingLinkView>,
    items: Seq<Seq<char>>,
    items2: Seq<Seq<char>>,
    fid: int,
)
    requires
        items.len() <= items2.len(),
        forall|k: int| 0 <= k < items.len() ==> items2[k] == items[k],
        forall|i: int| 0 <= i < links.len() ==> (#[trigger] links[i]).serving_id <= items.len(),
    ensures
        linked_servings(links, items2, fid) == linked_servings(links, items, fid),
    decreases links.len(),
{
    if links.len() > 0 {
        lemma_linked_servings_extend(links.drop_last(), items, items2, fid);
    }
}

/// A linked serving shows up in the hydration, with its description.
proof fn lemma_linked_servings_has(
    links: Seq<ServingLinkView>,
    items: Seq<Seq<char>>,
    fid: int,
    sid: int,
)
    requires
        has_srv_link(links, fid, sid),
        1 <= sid <= items.len(),
    ensures
        exists|s: ServingView|
            linked_servings(links, items, fid).contains(s) && (#[trigger] s.description)
                == items[sid - 1],
    decreases links.len(),
{
    if links.len() > 0 {
        let l = links.last();
        if l.food_id == fid && l.serving_id == sid {
            let s = ServingView { description: items[sid - 1], weight: l.weight };
            assert(linked_servings(links, items, fid).last() == s);
            assert(linked_servings(links, items, fid).contains(s));
            assert(s.description == items[sid - 1]);
        } else {
            assert(has_srv_link(links.drop_last(), fid, sid)) by {
                let i = choose|i: int|
                    0 <= i < links.len() && (#[trigger] links[i]).food_id == fid
                        && links[i].serving_id == sid;
                assert(links.drop_last()[i] == links[i]);
            }
            lemma_linked_servings_has(links.drop_last(), items, fid, sid);
            let s = choose|s: ServingView|
                linked_servings(links.drop_last(), items, fid).contains(s) && (
                #[trigger] s.description) == items[sid - 1];
            let i = choose|i: int|
                0 <= i < linked_servings(links.drop_last(), items, fid).len() && linked_servings(
                    links.drop_last(),
                    items,
                    fid,
                )[i] == s;
            assert(linked_servings(links, items, fid)[i] == s);
            assert(linked_servings(links, items, fid).contains(s));
        }
    }
}

/// A serving description already hydrated for `fid` stays hydrated
/// through the fold.
proof fn lemma_fold_preserves_srv_desc(
    items: Seq<Seq<char>>,
    links: Seq<ServingLinkView>,
    fid: int,
    ss: Seq<ServingView>,
    nf: int,
    d: Seq<char>,
)
    requires
        unique_seqs(items),
        srv_links_ok(links, nf, items.len() as int),
        1 <= fid <= nf,
        exists|s: ServingView|
            linked_servings(links, items, fid).contains(s) && (#[trigger] s.description) == d,
    ensures
        ({
            let r = insert_serving_links(items, links, fid, ss);
            exists|s: ServingView|
                linked_servings(r.1, r.0, fid).contains(s) && (#[trigger] s.description) == d
        }),
    decreases ss.len(),
{
    lemma_insert_serving_links(items, links, fid, ss, nf);
    if ss.len() > 0 {
        lemma_resolve_item(items, ss[0].description);
        let rr = resolve_item(items, ss[0].description);
        let nl = ServingLinkView { food_id: fid, serving_id: rr.1, weight: ss[0].weight };
        let links1 = if has_srv_link(links, fid, rr.1) {
            links
        } else {
            links.push(nl)
        };
        lemma_srv_links_ok_grow(links, nf, items.len() as int, rr.0.len() as int, fid, rr.1, nl.weight);
        assert(srv_links_ok(links1, nf, rr.0.len() as int));
        assert forall|ii: int| 0 <= ii < links.len() implies (#[trigger] links[ii]).serving_id
            <= items.len() by {
            assert(1 <= links[ii].food_id);
        }
        lemma_linked_servings_extend(links, items, rr.0, fid);
        let s0 = choose|s: ServingView|
            linked_servings(links, items, fid).contains(s) && (#[trigger] s.description) == d;
        assert(linked_servings(links1, rr.0, fid).contains(s0)) by {
            let i = choose|i: int|
                0 <= i < linked_servings(links, items, fid).len() && linked_servings(
                    links,
                    items,
                    fid,
                )[i] == s0;
            if !has_srv_link(links, fid, rr.1) {
                assert(links.push(nl).drop_last() =~= links);
                assert(links.push(nl).last() == nl);
                assert(linked_servings(links1, rr.0, fid) =~= linked_servings(links, rr.0, fid)
                    + seq![(ServingView { description: rr.0[rr.1 - 1], weight: nl.weight })]);
                assert(linked_servings(links1, rr.0, fid)[i] == s0);
            }
        }
        lemma_fold_preserves_srv_desc(rr.0, links1, fid, ss.drop_first(), nf, d);
    }
}

/// What the serving fold contributes to the hydration of food `fid`:
/// every hydrated serving is one of the given pairs, and every given
/// description shows up.
proof fn lemma_fold_servings_content(
    items: Seq<Seq<char>>,
    links: Seq<ServingLinkView>,
    fid: int,
    ss: Seq<ServingView>,
    nf: int,
)
    requires
        unique_seqs(items),
        srv_links_ok(links, nf, items.len() as int),
        1 <= fid <= nf,
    ensures
        ({
            let r = insert_serving_links(items, links, fid, ss);
            &&& (forall|s: ServingView|
                linked_servings(r.1, r.0, fid).contains(s) ==> linked_servings(
                    links,
                    items,
                    fid,
                ).contains(s) || exists|j: int| 0 <= j < ss.len() && s == #[trigger] ss[j])
            &&& (forall|j: int|
                0 <= j < ss.len() ==> exists|s: ServingView|
                    linked_servings(r.1, r.0, fid).contains(s) && (#[trigger] s.description) == (
                    #[trigger] ss[j]).description)
        }),
    decreases ss.len(),
{
    lemma_insert_serving_links(items, links, fid, ss, nf);
    let r = insert_serving_links(items, links, fid, ss);
    if ss.len() > 0 {
        lemma_resolve_item(items, ss[0].description);
        let rr = resolve_item(items, ss[0].description);
        let nl = ServingLinkView { food_id: fid, serving_id: rr.1, weight: ss[0].weight };
        let links1 = if has_srv_link(links, fid, rr.1) {
            links
        } else {
            links.push(nl)
        };
        lemma_srv_links_ok_grow(links, nf, items.len() as int, rr.0.len() as int, fid, rr.1, nl.weight);
        assert(srv_links_ok(links1, nf, rr.0.len() as int));
        lemma_fold_servings_content(rr.0, links1, fid, ss.drop_first(), nf);
        lemma_insert_serving_links(rr.0, links1, fid, ss.drop_first(), nf);
        assert forall|ii: int| 0 <= ii < links.len() implies (#[trigger] links[ii]).serving_id
            <= items.len() by {
            assert(1 <= links[ii].food_id);
        }
        lemma_linked_servings_extend(links, items, rr.0, fid);
        if !has_srv_link(links, fid, rr.1) {
            assert(links.push(nl).drop_last() =~= links);
            assert(links.push(nl).last() == nl);
            assert(linked_servings(links1, rr.0, fid) =~= linked_servings(links, rr.0, fid)
                + seq![(ServingView { description: ss[0].description, weight: ss[0].weight })]);
        }
        assert forall|s: ServingView|
            linked_servings(r.1, r.0, fid).contains(s) implies linked_servings(
            links,
            items,
            fid,
        ).contains(s) || exists|j: int| 0 <= j < ss.len() && s == #[trigger] ss[j] by {
            if linked_servings(links1, rr.0, fid).contains(s) {
                if !has_srv_link(links, fid, rr.1) {
                    let sv0 = ServingView { description: ss[0].description, weight: ss[0].weight };
                    if s != sv0 {
                        let i = choose|i: int|
                            0 <= i < linked_servings(links1, rr.0, fid).len() && linked_servings(
                                links1,
                                rr.0,
                                fid,
                            )[i] == s;
                        assert(linked_servings(links, rr.0, fid)[i] == s);
                        assert(linked_servings(links, items, fid).contains(s));
                    } else {
                        assert(s =~= ss[0]);
                        assert(s == ss[0]);
                    }
                }
            } else {
                let j = choose|j: int|
                    0 <= j < ss.drop_first().len() && s == #[trigger] ss.drop_first()[j];
                assert(ss.drop_first()[j] == ss[j + 1]);
            }
        }
        assert forall|j: int|
            0 <= j < ss.len() implies exists|s: ServingView|
            linked_servings(r.1, r.0, fid).contains(s) && (#[trigger] s.description) == (
            #[trigger] ss[j]).description by {
            if j == 0 {
                assert(has_srv_link(links1, fid, rr.1)) by {
                    if !has_srv_link(links, fid, rr.1) {
                        assert(links1[links.len() as int] == nl);
                    }
                }
                lemma_linked_servings_has(links1, rr.0, fid, rr.1);
                lemma_fold_preserves_srv_desc(
                    rr.0,
                    links1,
                    fid,
                    ss.drop_first(),
                    nf,
                    ss[0].description,
                );
            } else {
                assert(ss.drop_first()[j - 1] == ss[j]);
            }
        }
    }
}

/// Round trip: a food written through ingestion and read back by its
/// slug carries the same description, source, image and bit-identical
/// nutrition values; its tags and allergens are exactly the
/// lower-cased forms of the ones given; and its servings are among
/// the given pairs with every given description present.
pub proof fn lemma_insert_select_round_trip(sv: StoreView, f: FoodView)
    requires
        wf(sv),
        !has_description(sv, f.description),
        !has_slug(sv, slug_of(f.description)),
        has_capacity(sv, f),
    ensures
        ({
            let sv1 = spec_insert_food(sv, f);
            let i = sv.foods.len() as int;
            let g = hydrated(sv1, i);
            &&& wf(sv1)
            &&& sv1.foods[i].slug == slug_of(f.description)
            &&& (forall|j: int|
                0 <= j < sv1.foods.len() && (#[trigger] sv1.foods[j]).slug == slug_of(
                    f.description,
                ) ==> j == i)
            &&& g.description == f.description
            &&& g.slug == Some(slug_of(f.description))
            &&& g.source == f.source
            &&& g.image_url == f.image_url
            &&& g.nutrition == f.nutrition
            &&& g.verified == Some(
                match f.verified {
                    Some(v) => v,
                    None => true,
                },
            )
            &&& (forall|x: Seq<char>|
                g.tags.contains(x) ==> exists|j: int|
                    0 <= j < f.tags.len() && x == lower(#[trigger] f.tags[j]))
            &&& (forall|j: int|
                0 <= j < f.tags.len() ==> g.tags.contains(lower(#[trigger] f.tags[j])))
            &&& (forall|x: Seq<char>|
                g.allergens.contains(x) ==> exists|j: int|
                    0 <= j < f.allergens.len() && x == lower(#[trigger] f.allergens[j]))
            &&& (forall|j: int|
                0 <= j < f.allergens.len() ==> g.allergens.contains(lower(
                    #[trigger] f.allergens[j],
                )))
            &&& (forall|s: ServingView|
                g.servings.contains(s) ==> exists|j: int|
                    0 <= j < f.servings.len() && s == #[trigger] f.servings[j])
            &&& (forall|j: int|
                0 <= j < f.servings.len() ==> exists|s: ServingView|
                    g.servings.contains(s) && (#[trigger] s.description) == (
                    #[trigger] f.servings[j]).description)
        }),
{
    lemma_wf_insert(sv, f);
    let sv1 = spec_insert_food(sv, f);
    let i = sv.foods.len() as int;
    let id = i + 1;
    let g = hydrated(sv1, i);
    lemma_resolve_item(sv.sources, f.source);
    lemma_resolve_item(sv.images, f.image_url);
    assert(links_ok(sv.food_tags, id, sv.tags.len() as int));
    assert(links_ok(sv.food_allergens, id, sv.allergens.len() as int));
    assert(srv_links_ok(sv.food_servings, id, sv.serving_descs.len() as int));
    lemma_fold_items_content(sv.tags, sv.food_tags, id, f.tags, id);
    lemma_fold_items_content(sv.allergens, sv.food_allergens, id, f.allergens, id);
    lemma_fold_servings_content(sv.serving_descs, sv.food_servings, id, f.servings, id);
    assert(linked_items(sv.food_tags, sv.tags, id) == Seq::<Seq<char>>::empty()) by {
        assert(forall|k: int| 0 <= k < sv.food_tags.len() ==> (#[trigger] sv.food_tags[k]).food_id
            != id);
        lemma_linked_items_none(sv.food_tags, sv.tags, id);
    }
    assert(linked_items(sv.food_allergens, sv.allergens, id) == Seq::<Seq<char>>::empty()) by {
        assert(forall|k: int|
            0 <= k < sv.food_allergens.len() ==> (#[trigger] sv.food_allergens[k]).food_id != id);
        lemma_linked_items_none(sv.food_allergens, sv.allergens, id);
    }
    assert(linked_servings(sv.food_servings, sv.serving_descs, id) == Seq::<
        ServingView,
    >::empty()) by {
        assert(forall|k: int|
            0 <= k < sv.food_servings.len() ==> (#[trigger] sv.food_servings[k]).food_id != id);
        lemma_linked_servings_none(sv.food_servings, sv.serving_descs, id);
    }
    assert(sv1.foods[i].id == id);
    assert(g.tags == linked_items(sv1.food_tags, sv1.tags, id));
    assert(g.allergens == linked_items(sv1.food_allergens, sv1.allergens, id));
    assert(g.servings == linked_servings(sv1.food_servings, sv1.serving_descs, id));
    assert(sv1.foods[i].slug == slug_of(f.description));
    assert forall|j: int|
        0 <= j < sv1.foods.len() && (#[trigger] sv1.foods[j]).slug == slug_of(
            f.description,
        ) implies j == i by {
        if j != i {
            assert(sv1.foods[j].slug != sv1.foods[i].slug);
        }
    }
    assert(g.description == f.description);
    assert(g.slug == Some(slug_of(f.description)));
    assert(g.source == f.source);
    assert(g.image_url == f.image_url);
    assert(g.nutrition == f.nutrition);
    let rt = insert_item_links(sv.tags, sv.food_tags, id, f.tags);
    let ra = insert_item_links(sv.allergens, sv.food_allergens, id, f.allergens);
    assert(g.tags == linked_items(rt.1, rt.0, id));
    assert(g.allergens == linked_items(ra.1, ra.0, id));
    assert forall|x: Seq<char>|
        g.tags.contains(x) implies exists|j: int|
            0 <= j < f.tags.len() && x == lower(#[trigger] f.tags[j]) by {
        assert(linked_items(rt.1, rt.0, id).contains(x));
        if linked_items(sv.food_tags, sv.tags, id).contains(x) {
            let i0 = choose|i0: int|
                0 <= i0 < linked_items(sv.food_tags, sv.tags, id).len() && linked_items(
                    sv.food_tags,
                    sv.tags,
                    id,
                )[i0] == x;
            assert(false);
        }
    }
    assert(forall|j: int| 0 <= j < f.tags.len() ==> g.tags.contains(lower(#[trigger] f.tags[j])));
    assert forall|x: Seq<char>|
        g.allergens.contains(x) implies exists|j: int|
            0 <= j < f.allergens.len() && x == lower(#[trigger] f.allergens[j]) by {
        assert(linked_items(ra.1, ra.0, id).contains(x));
        if linked_items(sv.food_allergens, sv.allergens, id).contains(x) {
            let i0 = choose|i0: int|
                0 <= i0 < linked_items(sv.food_allergens, sv.allergens, id).len() && linked_items(
                    sv.food_allergens,
                    sv.allergens,
                    id,
                )[i0] == x;
            assert(false);
        }
    }
    assert(forall|j: int|
        0 <= j < f.allergens.len() ==> g.allergens.contains(lower(#[trigger] f.allergens[j])));
    let rv = insert_serving_links(sv.serving_descs, sv.food_servings, id, f.servings);
    assert(g.servings == linked_servings(rv.1, rv.0, id));
    assert forall|s: ServingView|
        g.servings.contains(s) implies exists|j: int|
            0 <= j < f.servings.len() && s == #[trigger] f.servings[j] by {
        assert(linked_servings(rv.1, rv.0, id).contains(s));
        if linked_servings(sv.food_servings, sv.serving_descs, id).contains(s) {
            let i0 = choose|i0: int|
                0 <= i0 < linked_servings(sv.food_servings, sv.serving_descs, id).len()
                    && linked_servings(sv.food_servings, sv.serving_descs, id)[i0] == s;
            assert(false);
        }
    }
    assert(forall|j: int|
        0 <= j < f.servings.len() ==> exists|s: ServingView|
            g.servings.contains(s) && (#[trigger] s.description) == (
            #[trigger] f.servings[j]).description);
}

impl Store {
    /// Ingests one food.  The whole call behaves like a single
    /// transaction: on any error the store is unchanged, on success the
    /// new state holds the food row and all of its link rows, exactly
    /// as [`spec_insert_food`] describes.  A duplicate description is
    /// reported as `AlreadyExists`; a slug collision or a table at
    /// capacity as `Failure`.  Tags and allergens are lower-cased
    /// before insertion.
    #[verifier::loop_isolation(false)]
    pub fn insert_food(&mut self, food: Food) -> (r: Result<Food, StoreError>)
        requires
            wf(old(self)@),
        ensures
            wf(final(self)@),
            match r {
                Result::Err(e) => final(self)@ == old(self)@ && match e {
                    StoreError::AlreadyExists => has_description(old(self)@, food@.description),
                    StoreError::Failure => !has_description(old(self)@, food@.description) && (
                    has_slug(old(self)@, slug_of(food@.description)) || !has_capacity(
                        old(self)@,
                        food@,
                    )),
                    StoreError::NotFound => false,
                },
                Result::Ok(f) => {
                    &&& !has_description(old(self)@, food@.description)
                    &&& !has_slug(old(self)@, slug_of(food@.description))
                    &&& has_capacity(old(self)@, food@)
                    &&& final(self)@ == spec_insert_food(old(self)@, food@)
                    &&& f@ == (FoodView {
                        id: Some((old(self)@.foods.len() + 1) as i64),
                        ..food@
                    })
                },
            },
    {
        if self.food_exists_by_description(food.description.as_str()) {
            return Err(StoreError::AlreadyExists);
        }
        let slug = crate::slug::to_lower_en_kebab_case(food.description.as_str());
        if self.slug_taken(&slug) {
            return Err(StoreError::Failure);
        }
        if !self.capacity_ok(&food) {
            return Err(StoreError::Failure);
        }
        let ghost sv0 = self@;
        let ghost fv = food@;
        proof {
            lemma_wf_insert(sv0, fv);
        }

        let source_id = resolve_in(&mut self.sources, &food.source);
        let image_id = resolve_in(&mut self.images, &food.image_url);
        let fid = (self.foods.len() as u64) + 1;
        let row = StoredFood {
            id: fid,
            slug: slug,
            description: food.description.clone(),
            verified: match food.verified {
                Some(v) => v,
                None => true,
            },
            source_id: source_id,
            image_id: image_id,
            nutrition: food.nutrition,
        };
        self.foods.push(row);
        proof {
            let id = sv0.foods.len() as int + 1;
            let srow = RowView {
                id: id,
                slug: slug_of(fv.description),
                description: fv.description,
                verified: match fv.verified {
                    Some(v) => v,
                    None => true,
                },
                source_id: resolve_item(sv0.sources, fv.source).1,
                image_id: resolve_item(sv0.images, fv.image_url).1,
                nutrition: fv.nutrition,
            };
            assert(rows_view(self.foods@) =~= sv0.foods.push(srow));
        }

        let ghost s1 = self@;
        let ghost gt = insert_item_links(sv0.tags, sv0.food_tags, fid as int, fv.tags);
        proof {
            assert(fv.tags.skip(0) =~= fv.tags);
            assert(fv.tags =~= food.tags.deep_view());
        }
        let nt = food.tags.len();
        let mut k: usize = 0;
        while k < nt
            invariant
                nt == fv.tags.len(),
                k <= nt,
                fid as int == sv0.foods.len() + 1,
                sv0.tags.len() + fv.tags.len() <= ROW_CAP,
                self.tags@.len() <= sv0.tags.len() + k,
                self@.foods == s1.foods,
                self@.sources == s1.sources,
                self@.images == s1.images,
                self@.allergens == s1.allergens,
                self@.serving_descs == s1.serving_descs,
                self@.food_allergens == s1.food_allergens,
                self@.food_servings == s1.food_servings,
                insert_item_links(
                    self.tags.deep_view(),
                    links_view(self.food_tags@),
                    fid as int,
                    fv.tags.skip(k as int),
                ) == gt,
                food.tags@.len() == nt,
            decreases nt - k,
        {
            proof {
                assert(fv.tags == food.tags.deep_view());
                assert(food.tags.deep_view()[k as int] == food.tags@[k as int]@);
                assert(fv.tags[k as int] == food.tags@[k as int]@);
                assert(fv.tags.skip(k as int)[0] == fv.tags[k as int]);
                assert(fv.tags.skip(k as int).drop_first() =~= fv.tags.skip(k + 1));
            }
            let ghost tags_before = self.tags.deep_view();
            let ghost links_before = links_view(self.food_tags@);
            let t = lower_string(food.tags[k].as_str());
            let tid = resolve_in(&mut self.tags, &t);
            proof {
                assert(self.tags@.len() == self.tags.deep_view().len());
                assert(self.tags.deep_view().len() <= tags_before.len() + 1);
            }
            if !has_link_exec(&self.food_tags, fid, tid) {
                self.food_tags.push(Link { food_id: fid, item_id: tid });
                proof {
                    assert(links_view(self.food_tags@) =~= links_before.push(
                        LinkView { food_id: fid as int, item_id: tid as int },
                    ));
                }
            }
            k += 1;
        }
        proof {
            assert(fv.tags.skip(nt as int) =~= Seq::<Seq<char>>::empty());
            assert(self.tags.deep_view() == gt.0 && links_view(self.food_tags@) == gt.1);
        }

        let ghost s2 = self@;
        let ghost ga = insert_item_links(sv0.allergens, sv0.food_allergens, fid as int, fv.allergens);
        proof {
            assert(fv.allergens.skip(0) =~= fv.allergens);
            assert(fv.allergens =~= food.allergens.deep_view());
        }
        let na = food.allergens.len();
        let mut k2: usize = 0;
        while k2 < na
            invariant
                na == fv.allergens.len(),
                k2 <= na,
                fid as int == sv0.foods.len() + 1,
                sv0.allergens.len() + fv.allergens.len() <= ROW_CAP,
                self.allergens@.len() <= sv0.allergens.len() + k2,
                self@.foods == s2.foods,
                self@.sources == s2.sources,
                self@.images == s2.images,
                self@.tags == s2.tags,
                self@.serving_descs == s2.serving_descs,
                self@.food_tags == s2.food_tags,
                self@.food_servings == s2.food_servings,
                insert_item_links(
                    self.allergens.deep_view(),
                    links_view(self.food_allergens@),
                    fid as int,
                    fv.allergens.skip(k2 as int),
                ) == ga,
                food.allergens@.len() == na,
            decreases na - k2,
        {
            proof {
                assert(fv.allergens == food.allergens.deep_view());
                assert(food.allergens.deep_view()[k2 as int] == food.allergens@[k2 as int]@);
                assert(fv.allergens[k2 as int] == food.allergens@[k2 as int]@);
                assert(fv.allergens.skip(k2 as int)[0] == fv.allergens[k2 as int]);
                assert(fv.allergens.skip(k2 as int).drop_first() =~= fv.allergens.skip(k2 + 1));
            }
            let ghost links_before = links_view(self.food_allergens@);
            let ghost all_before = self.allergens.deep_view();
            let t = lower_string(food.allergens[k2].as_str());
            let aid = resolve_in(&mut self.allergens, &t);
            proof {
                assert(self.allergens@.len() == self.allergens.deep_view().len());
                assert(self.allergens.deep_view().len() <= all_before.len() + 1);
            }
            if !has_link_exec(&self.food_allergens, fid, aid) {
                self.food_allergens.push(Link { food_id: fid, item_id: aid });
                proof {
                    assert(links_view(self.food_allergens@) =~= links_before.push(
                        LinkView { food_id: fid as int, item_id: aid as int },
                    ));
                }
            }
            k2 += 1;
        }
        proof {
            assert(fv.allergens.skip(na as int) =~= Seq::<Seq<char>>::empty());
            assert(self.allergens.deep_view() == ga.0 && links_view(self.food_allergens@) == ga.1);
        }

        let ghost s3 = self@;
        let ghost gs = insert_serving_links(
            sv0.serving_descs,
            sv0.food_servings,
            fid as int,
            fv.servings,
        );
        proof {
            assert(fv.servings.skip(0) =~= fv.servings);
            assert(fv.servings =~= Seq::new(food.servings@.len(), |i: int| food.servings@[i]@));
        }
        let ns = food.servings.len();
        let mut k3: usize = 0;
        while k3 < ns
            invariant
                ns == fv.servings.len(),
                k3 <= ns,
                fid as int == sv0.foods.len() + 1,
                sv0.serving_descs.len() + fv.servings.len() <= ROW_CAP,
                self.serving_descs@.len() <= sv0.serving_descs.len() + k3,
                self@.foods == s3.foods,
                self@.sources == s3.sources,
                self@.images == s3.images,
                self@.tags == s3.tags,
                self@.allergens == s3.allergens,
                self@.food_tags == s3.food_tags,
                self@.food_allergens == s3.food_allergens,
                insert_serving_links(
                    self.serving_descs.deep_view(),
                    srv_links_view(self.food_servings@),
                    fid as int,
                    fv.servings.skip(k3 as int),
                ) == gs,
                food.servings@.len() == ns,
            decreases ns - k3,
        {
            proof {
                assert(fv.servings == Seq::new(food.servings@.len(), |i: int| food.servings@[i]@));
                assert(fv.servings[k3 as int] == food.servings@[k3 as int]@);
                assert(fv.servings.skip(k3 as int)[0] == fv.servings[k3 as int]);
                assert(fv.servings.skip(k3 as int).drop_first() =~= fv.servings.skip(k3 + 1));
            }
            let ghost links_before = srv_links_view(self.food_servings@);
            let ghost sd_before = self.serving_descs.deep_view();
            let sid = resolve_in(&mut self.serving_descs, &food.servings[k3].description);
            proof {
                assert(self.serving_descs@.len() == self.serving_descs.deep_view().len());
                assert(self.serving_descs.deep_view().len() <= sd_before.len() + 1);
            }
            let w = food.servings[k3].weight;
            if !has_srv_link_exec(&self.food_servings, fid, sid) {
                self.food_servings.push(ServingLink { food_id: fid, serving_id: sid, weight: w });
                proof {
                    assert(srv_links_view(self.food_servings@) =~= links_before.push(
                        ServingLinkView {
                            food_id: fid as int,
                            serving_id: sid as int,
                            weight: fv.servings[k3 as int].weight,
                        },
                    ));
                }
            }
            k3 += 1;
        }
        proof {
            assert(fv.servings.skip(ns as int) =~= Seq::<ServingView>::empty());
            assert(self.serving_descs.deep_view() == gs.0 && srv_links_view(self.food_servings@)
                == gs.1);
            assert(self@ =~= spec_insert_food(sv0, fv));
        }

        let result = Food { id: Some(fid as i64), ..food };
        proof {
            assert(result@ =~= (FoodView { id: Some((sv0.foods.len() + 1) as i64), ..fv }));
        }
        Ok(result)
    }
}

/// The item descriptions linked to food `fid`, in link-table order.
pub open spec fn linked_items(links: Seq<LinkView>, items: Seq<Seq<char>>, fid: int) -> Seq<
    Seq<char>,
>
    decreases links.len(),
{
    if links.len() == 0 {
        Seq::empty()
    } else {
        let l = links.last();
        linked_items(links.drop_last(), items, fid) + (if l.food_id == fid && 1 <= l.item_id
            <= items.len() {
            seq![items[l.item_id - 1]]
        } else {
            Seq::empty()
        })
    }
}

/// The servings linked to food `fid`, in link-table order.
pub open spec fn linked_servings(
    links: Seq<ServingLinkView>,
    items: Seq<Seq<char>>,
    fid: int,
) -> Seq<ServingView>
    decreases links.len(),
{
    if links.len() == 0 {
        Seq::empty()
    } else {
        let l = links.last();
        linked_servings(links.drop_last(), items, fid) + (if l.food_id == fid && 1 <= l.serving_id
            <= items.len() {
            seq![ServingView { description: items[l.serving_id - 1], weight: l.weight }]
        } else {
            Seq::empty()
        })
    }
}

/// The food at row `i`, hydrated with its source, image, tags,
/// allergens and servings.
pub open spec fn hydrated(sv: StoreView, i: int) -> FoodView {
    let row = sv.foods[i];
    FoodView {
        id: Some(row.id as i64),
        slug: Some(row.slug),
        description: row.description,
        verified: Some(row.verified),
        image_url: if 1 <= row.image_id <= sv.images.len() {
            sv.images[row.image_id - 1]
        } else {
            Seq::empty()
        },
        source: if 1 <= row.source_id <= sv.sources.len() {
            sv.sources[row.source_id - 1]
        } else {
            Seq::empty()
        },
        tags: linked_items(sv.food_tags, sv.tags, row.id),
        allergens: linked_items(sv.food_allergens, sv.allergens, row.id),
        servings: linked_servings(sv.food_servings, sv.serving_descs, row.id),
        nutrition: row.nutrition,
    }
}

/// The slugs of the verified foods, in row order.
pub open spec fn verified_slugs(sv: StoreView) -> Seq<Seq<char>>
    decreases sv.foods.len(),
{
    if sv.foods.len() == 0 {
        Seq::empty()
    } else {
        let prev = StoreView { foods: sv.foods.drop_last(), ..sv };
        verified_slugs(prev) + (if sv.foods.last().verified {
            seq![sv.foods.last().slug]
        } else {
            Seq::empty()
        })
    }
}

/// A row's description contains `q`, both sides ASCII-lower-cased.
pub open spec fn desc_matches(row: RowView, q: Seq<char>) -> bool {
    contains_seq(lower(row.description), lower(q))
}

/// The hydrated foods among the first `n` rows whose description
/// contains `q` case-insensitively, in row order.
pub open spec fn search_desc_upto(sv: StoreView, q: Seq<char>, n: int) -> Seq<FoodView>
    decreases n,
{
    if n <= 0 {
        Seq::empty()
    } else {
        search_desc_upto(sv, q, n - 1) + (if desc_matches(sv.foods[n - 1], q) {
            seq![hydrated(sv, n - 1)]
        } else {
            Seq::empty()
        })
    }
}

/// Food `fid` carries at least one tag whose description contains the
/// (already lower-cased) query `ql`.
pub open spec fn tag_matches(sv: StoreView, fid: int, ql: Seq<char>) -> bool {
    exists|j: int|
        0 <= j < sv.food_tags.len() && (#[trigger] sv.food_tags[j]).food_id == fid && 1
            <= sv.food_tags[j].item_id <= sv.tags.len() && contains_seq(
            sv.tags[sv.food_tags[j].item_id - 1],
            ql,
        )
}

/// The hydrated foods among the first `n` rows that carry a tag
/// containing `q` case-insensitively, in row order.
pub open spec fn search_tag_upto(sv: StoreView, q: Seq<char>, n: int) -> Seq<FoodView>
    decreases n,
{
    if n <= 0 {
        Seq::empty()
    } else {
        search_tag_upto(sv, q, n - 1) + (if tag_matches(sv, sv.foods[n - 1].id, lower(q)) {
            seq![hydrated(sv, n - 1)]
        } else {
            Seq::empty()
        })
    }
}

/// Every slug in the verified-slug listing belongs to a stored food
/// row; fetching any listed slug therefore finds a food.
pub proof fn lemma_listed_slug_fetchable(sv: StoreView, k: int)
    requires
        0 <= k < verified_slugs(sv).len(),
    ensures
        has_slug(sv, verified_slugs(sv)[k]),
    decreases sv.foods.len(),
{
    if sv.foods.len() > 0 {
        let prev = StoreView { foods: sv.foods.drop_last(), ..sv };
        if k < verified_slugs(prev).len() {
            lemma_listed_slug_fetchable(prev, k);
            let i = choose|i: int|
                0 <= i < prev.foods.len() && (#[trigger] prev.foods[i]).slug == verified_slugs(
                    prev,
                )[k];
            assert(sv.foods[i].slug == verified_slugs(sv)[k]);
        } else {
            assert(sv.foods[sv.foods.len() - 1].slug == verified_slugs(sv)[k]);
        }
    }
}

/// Collects the item descriptions linked to food `fid`.
fn collect_items(links: &Vec<Link>, items: &Vec<String>, fid: u64) -> (r: Vec<String>)
    ensures
        r.deep_view() == linked_items(links_view(links@), items.deep_view(), fid as int),
{
    let n = links.len();
    let mut r: Vec<String> = Vec::new();
    let mut i: usize = 0;
    while i < n
        invariant
            n == links@.len(),
            i <= n,
            r.deep_view() == linked_items(
                links_view(links@).take(i as int),
                items.deep_view(),
                fid as int,
            ),
        decreases n - i,
    {
        proof {
            assert(links_view(links@).take(i + 1).drop_last() =~= links_view(links@).take(i as int));
            assert(links_view(links@).take(i + 1).last() == links@[i as int]@);
        }
        let ghost prev = r.deep_view();
        let l = links[i];
        if l.food_id == fid && 1 <= l.item_id && l.item_id <= items.len() as u64 {
            let idx = (l.item_id as usize) - 1;
            r.push(items[idx].clone());
            proof {
                assert(items.deep_view()[l.item_id as int - 1] == items@[l.item_id as int - 1]@);
                assert(r.deep_view() =~= prev.push(items.deep_view()[l.item_id as int - 1]));
                assert(prev.push(items.deep_view()[l.item_id as int - 1]) =~= prev + seq![
                    items.deep_view()[l.item_id as int - 1],
                ]);
            }
        }
        i += 1;
    }
    proof {
        assert(links_view(links@).take(n as int) =~= links_view(links@));
    }
    r
}

/// Collects the servings linked to food `fid`.
fn collect_servings(links: &Vec<ServingLink>, items: &Vec<String>, fid: u64) -> (r: Vec<Serving>)
    ensures
        Seq::new(r@.len(), |i: int| r@[i]@) == linked_servings(
            srv_links_view(links@),
            items.deep_view(),
            fid as int,
        ),
{
    let n = links.len();
    let mut r: Vec<Serving> = Vec::new();
    let mut i: usize = 0;
    while i < n
        invariant
            n == links@.len(),
            i <= n,
            Seq::new(r@.len(), |k: int| r@[k]@) == linked_servings(
                srv_links_view(links@).take(i as int),
                items.deep_view(),
                fid as int,
            ),
        decreases n - i,
    {
        proof {
            assert(srv_links_view(links@).take(i + 1).drop_last() =~= srv_links_view(
                links@,
            ).take(i as int));
            assert(srv_links_view(links@).take(i + 1).last() == links@[i as int]@);
        }
        let ghost prev = Seq::new(r@.len(), |k: int| r@[k]@);
        let l = links[i];
        if l.food_id == fid && 1 <= l.serving_id && l.serving_id <= items.len() as u64 {
            let idx = (l.serving_id as usize) - 1;
            r.push(Serving { description: items[idx].clone(), weight: l.weight });
            proof {
                assert(items.deep_view()[l.serving_id as int - 1] == items@[l.serving_id as int
                    - 1]@);
                assert(Seq::new(r@.len(), |k: int| r@[k]@) =~= prev + seq![
                    (ServingView {
                        description: items.deep_view()[l.serving_id as int - 1],
                        weight: l.weight,
                    }),
                ]);
            }
        } else {
            proof {
                assert(Seq::new(r@.len(), |k: int| r@[k]@) =~= prev);
            }
        }
        i += 1;
    }
    proof {
        assert(srv_links_view(links@).take(n as int) =~= srv_links_view(links@));
    }
    r
}

impl Store {
    /// Builds the full [`Food`] value of row `i`.
    fn hydrate(&self, i: usize) -> (r: Food)
        requires
            wf(self@),
            i < self@.foods.len(),
        ensures
            r@ == hydrated(self@, i as int),
    {
        proof {
            assert(self@.foods[i as int] == self.foods@[i as int]@);
        }
        let row = &self.foods[i];
        let src_idx = (row.source_id as usize) - 1;
        let img_idx = (row.image_id as usize) - 1;
        proof {
            assert(self@.sources[src_idx as int] == self.sources@[src_idx as int]@);
            assert(self@.images[img_idx as int] == self.images@[img_idx as int]@);
        }
        let r = Food {
            id: Some(row.id as i64),
            slug: Some(row.slug.clone()),
            description: row.description.clone(),
            verified: Some(row.verified),
            image_url: self.images[img_idx].clone(),
            source: self.sources[src_idx].clone(),
            tags: collect_items(&self.food_tags, &self.tags, row.id),
            allergens: collect_items(&self.food_allergens, &self.allergens, row.id),
            servings: collect_servings(&self.food_servings, &self.serving_descs, row.id),
            nutrition: row.nutrition,
        };
        proof {
            assert(r@ =~= hydrated(self@, i as int));
        }
        r
    }

    /// Fetches one food by slug, hydrated with its tags, allergens and
    /// servings.  Fails with `NotFound` exactly when no row has the
    /// slug.
    pub fn select_food_by_slug(&self, slug: &str) -> (r: Result<Food, StoreError>)
        requires
            wf(self@),
        ensures
            match r {
                Result::Ok(f) => exists|i: int|
                    0 <= i < self@.foods.len() && (#[trigger] self@.foods[i]).slug == slug@ && f@
                        == hydrated(self@, i),
                Result::Err(e) => e == StoreError::NotFound && !has_slug(self@, slug@),
            },
    {
        let n = self.foods.len();
        let mut i: usize = 0;
        while i < n
            invariant
                wf(self@),
                n == self@.foods.len(),
                i <= n,
                forall|k: int| 0 <= k < i ==> (#[trigger] self@.foods[k]).slug != slug@,
            decreases n - i,
        {
            proof {
                assert(self@.foods[i as int] == self.foods@[i as int]@);
            }
            if crate::text::str_eq(self.foods[i].slug.as_str(), slug) {
                let f = self.hydrate(i);
                return Ok(f);
            }
            i += 1;
        }
        Err(StoreError::NotFound)
    }

    /// The slugs of all verified foods, in row order.
    pub fn select_all_foods_slugs(&self) -> (r: Vec<String>)
        ensures
            r.deep_view() == verified_slugs(self@),
    {
        let n = self.foods.len();
        let mut r: Vec<String> = Vec::new();
        let mut i: usize = 0;
        proof {
            assert((StoreView { foods: self@.foods.take(0), ..self@ }).foods =~= Seq::<
                RowView,
            >::empty());
        }
        while i < n
            invariant
                n == self@.foods.len(),
                i <= n,
                r.deep_view() == verified_slugs(
                    (StoreView { foods: self@.foods.take(i as int), ..self@ }),
                ),
            decreases n - i,
        {
            proof {
                assert(self@.foods.take(i + 1).drop_last() =~= self@.foods.take(i as int));
                assert(self@.foods.take(i + 1).last() == self@.foods[i as int]);
                assert(self@.foods[i as int] == self.foods@[i as int]@);
            }
            let ghost prev = r.deep_view();
            if self.foods[i].verified {
                r.push(self.foods[i].slug.clone());
                proof {
                    assert(r.deep_view() =~= prev + seq![self@.foods[i as int].slug]);
                }
            }
            i += 1;
        }
        proof {
            assert(self@.foods.take(n as int) =~= self@.foods);
            assert((StoreView { foods: self@.foods.take(n as int), ..self@ }) =~= self@);
        }
        r
    }

    /// All stored tag descriptions (already lower-cased), in row order.
    pub fn select_all_tags(&self) -> (r: Vec<String>)
        ensures
            r.deep_view() == self@.tags,
    {
        let n = self.tags.len();
        let mut r: Vec<String> = Vec::new();
        let mut i: usize = 0;
        while i < n
            invariant
                n == self.tags@.len(),
                i <= n,
                r.deep_view() == self@.tags.take(i as int),
            decreases n - i,
        {
            let ghost prev = r.deep_view();
            r.push(self.tags[i].clone());
            proof {
                assert(self@.tags[i as int] == self.tags@[i as int]@);
                assert(r.deep_view() =~= prev.push(self@.tags[i as int]));
                assert(self@.tags.take(i + 1) =~= self@.tags.take(i as int).push(
                    self@.tags[i as int],
                ));
            }
            i += 1;
        }
        proof {
            assert(self@.tags.take(n as int) =~= self@.tags);
        }
        r
    }

    /// All foods whose description contains `description`
    /// case-insensitively (ASCII folding, as an embedded SQL store's
    /// `LIKE` folds), hydrated, in row order.
    pub fn search_foods_by_description_wild(&self, description: &str) -> (r: Vec<Food>)
        requires
            wf(self@),
        ensures
            crate::food::views_of(r@) == search_desc_upto(
                self@,
                description@,
                self@.foods.len() as int,
            ),
    {
        let qlow = crate::text::chars_of(lower_string(description).as_str());
        let n = self.foods.len();
        let mut r: Vec<Food> = Vec::new();
        let mut i: usize = 0;
        while i < n
            invariant
                wf(self@),
                n == self@.foods.len(),
                i <= n,
                qlow@ == lower(description@),
                crate::food::views_of(r@) == search_desc_upto(self@, description@, i as int),
            decreases n - i,
        {
            proof {
                assert(self@.foods[i as int] == self.foods@[i as int]@);
            }
            let ghost prev = crate::food::views_of(r@);
            let dlow = crate::text::chars_of(lower_string(self.foods[i].description.as_str()).as_str());
            if crate::text::contains_exec(&dlow, &qlow) {
                let f = self.hydrate(i);
                r.push(f);
                proof {
                    assert(crate::food::views_of(r@) =~= prev + seq![hydrated(self@, i as int)]);
                }
            }
            i += 1;
        }
        r
    }

    /// All foods carrying at least one tag whose description contains
    /// `tag` case-insensitively, hydrated, in row order.
    pub fn search_foods_by_tag_wild(&self, tag: &str) -> (r: Vec<Food>)
        requires
            wf(self@),
        ensures
            crate::food::views_of(r@) == search_tag_upto(self@, tag@, self@.foods.len() as int),
    {
        let qlow = crate::text::chars_of(lower_string(tag).as_str());
        let n = self.foods.len();
        let mut r: Vec<Food> = Vec::new();
        let mut i: usize = 0;
        while i < n
            invariant
                wf(self@),
                n == self@.foods.len(),
                i <= n,
                qlow@ == lower(tag@),
                crate::food::views_of(r@) == search_tag_upto(self@, tag@, i as int),
            decreases n - i,
        {
            proof {
                assert(self@.foods[i as int] == self.foods@[i as int]@);
            }
            let ghost prev = crate::food::views_of(r@);
            if self.food_has_matching_tag(self.foods[i].id, &qlow) {
                let f = self.hydrate(i);
                r.push(f);
                proof {
                    assert(crate::food::views_of(r@) =~= prev + seq![hydrated(self@, i as int)]);
                }
            }
            i += 1;
        }
        r
    }

    /// Checks whether food `fid` carries a tag containing the
    /// (already lower-cased) query.
    fn food_has_matching_tag(&self, fid: u64, qlow: &Vec<char>) -> (r: bool)
        ensures
            r == tag_matches(self@, fid as int, qlow@),
    {
        let n = self.food_tags.len();
        let mut j: usize = 0;
        while j < n
            invariant
                n == self.food_tags@.len(),
                j <= n,
                forall|k: int|
                    0 <= k < j ==> !((#[trigger] self@.food_tags[k]).food_id == fid as int && 1
                        <= self@.food_tags[k].item_id <= self@.tags.len() && contains_seq(
                        self@.tags[self@.food_tags[k].item_id - 1],
                        qlow@,
                    )),
            decreases n - j,
        {
            proof {
                assert(self@.food_tags[j as int] == self.food_tags@[j as int]@);
            }
            let l = self.food_tags[j];
            if l.food_id == fid && 1 <= l.item_id && l.item_id <= self.tags.len() as u64 {
                let idx = (l.item_id as usize) - 1;
                proof {
                    assert(self@.tags[idx as int] == self.tags@[idx as int]@);
                }
                let tchars = crate::text::chars_of(self.tags[idx].as_str());
                if crate::text::contains_exec(&tchars, qlow) {
                    return true;
                }
            }
            j += 1;
        }
        false
    }
}

} // verus!
