//! Seeding: the one-shot, startup-time ingestion of parsed seed
//! records into the store.  A record whose description is already
//! present is skipped, as is one whose slug collides or that would
//! outgrow a table; the store, not the seed data, is authoritative,
//! so a skip is never an error.

use vstd::prelude::*;
use crate::food::{Food, FoodView, views_of};
use crate::slug::slug_of;
use crate::store::{Store, StoreView, wf, has_description, has_slug, has_capacity,
    spec_insert_food, lemma_wf_insert, lemma_resolve_item, lemma_insert_item_links,
    lemma_insert_serving_links, resolve_item, insert_item_links, insert_serving_links};

verus! {

/// A record is skipped when its description is already present, its
/// slug is taken, or a table is at capacity.
pub open spec fn skip_at(sv: StoreView, f: FoodView) -> bool {
    has_description(sv, f.description) || has_slug(sv, slug_of(f.description)) || !has_capacity(
        sv,
        f,
    )
}

/// The store state after seeding the records `fs`, in order: each one
/// is ingested unless [`skip_at`] holds for it at that moment.
pub open spec fn spec_seed(sv: StoreView, fs: Seq<FoodView>) -> StoreView
    decreases fs.len(),
{
    if fs.len() == 0 {
        sv
    } else {
        let sv1 = if skip_at(sv, fs[0]) {
            sv
        } else {
            spec_insert_food(sv, fs[0])
        };
        spec_seed(sv1, fs.drop_first())
    }
}

/// Seeds the store with a list of parsed records.  Skipped records
/// (duplicates, slug collisions, full tables) leave the store
/// untouched; the final state is exactly [`spec_seed`].
#[verifier::loop_isolation(false)]
pub fn seed_foods(store: &mut Store, foods: Vec<Food>)
    requires
        wf(old(store)@),
    ensures
        wf(final(store)@),
        final(store)@ == spec_seed(old(store)@, views_of(foods@)),
{
    let ghost fvs = views_of(foods@);
    let ghost goal = spec_seed(old(store)@, fvs);
    let mut rest = foods;
    proof {
        assert(fvs.skip(0) =~= fvs);
    }
    let n = rest.len();
    let mut i: usize = 0;
    while i < n
        invariant
            i <= n,
            n == fvs.len(),
            rest@.len() == n - i,
            views_of(rest@) == fvs.skip(i as int),
            wf(store@),
            spec_seed(store@, fvs.skip(i as int)) == goal,
        decreases n - i,
    {
        proof {
            assert(views_of(rest@)[0] == rest@[0]@);
            assert(fvs.skip(i as int)[0] == fvs[i as int]);
            assert(views_of(rest@.remove(0)) =~= views_of(rest@).remove(0));
            assert(views_of(rest@).remove(0) =~= fvs.skip(i + 1));
            assert(fvs.skip(i as int).drop_first() =~= fvs.skip(i + 1));
        }
        let f = rest.remove(0);
        let ghost svb = store@;
        let ghost fv = fvs[i as int];
        proof {
            assert(f@ == fv);
        }
        let r = store.insert_food(f);
        proof {
            if r is Ok {
                assert(!skip_at(svb, fv));
                assert(store@ == spec_insert_food(svb, fv));
            } else {
                assert(skip_at(svb, fv));
                assert(store@ == svb);
            }
            assert(spec_seed(svb, fvs.skip(i as int)) == spec_seed(store@, fvs.skip(i + 1)));
        }
        i += 1;
    }
    proof {
        assert(fvs.skip(n as int) =~= Seq::<FoodView>::empty());
    }
}

/// What one fresh ingestion does to the facts that seeding cares
/// about: the new description and slug are present, nothing else is
/// lost, and no table shrinks.
proof fn lemma_insert_props(sv: StoreView, f: FoodView)
    requires
        wf(sv),
        !has_description(sv, f.description),
        !has_slug(sv, slug_of(f.description)),
        has_capacity(sv, f),
    ensures
        ({
            let r = spec_insert_food(sv, f);
            &&& wf(r)
            &&& (forall|d: Seq<char>|
                has_description(r, d) <==> (has_description(sv, d) || d == f.description))
            &&& (forall|s2: Seq<char>| has_slug(sv, s2) ==> has_slug(r, s2))
            &&& has_slug(r, slug_of(f.description))
            &&& r.foods.len() == sv.foods.len() + 1
            &&& r.sources.len() >= sv.sources.len()
            &&& r.images.len() >= sv.images.len()
            &&& r.tags.len() >= sv.tags.len()
            &&& r.allergens.len() >= sv.allergens.len()
            &&& r.serving_descs.len() >= sv.serving_descs.len()
            &&& r.food_tags.len() >= sv.food_tags.len()
            &&& r.food_allergens.len() >= sv.food_allergens.len()
            &&& r.food_servings.len() >= sv.food_servings.len()
        }),
{
    lemma_wf_insert(sv, f);
    let r = spec_insert_food(sv, f);
    let id = sv.foods.len() as int + 1;
    lemma_resolve_item(sv.sources, f.source);
    lemma_resolve_item(sv.images, f.image_url);
    lemma_insert_item_links(sv.tags, sv.food_tags, id, f.tags, id);
    lemma_insert_item_links(sv.allergens, sv.food_allergens, id, f.allergens, id);
    lemma_insert_serving_links(sv.serving_descs, sv.food_servings, id, f.servings, id);
    assert(r.foods[sv.foods.len() as int].description == f.description);
    assert(r.foods[sv.foods.len() as int].slug == slug_of(f.description));
    assert forall|d: Seq<char>|
        has_description(r, d) <==> (has_description(sv, d) || d == f.description) by {
        if has_description(sv, d) {
            let i = choose|i: int|
                0 <= i < sv.foods.len() && (#[trigger] sv.foods[i]).description == d;
            assert(r.foods[i].description == d);
        }
        if has_description(r, d) {
            let i = choose|i: int|
                0 <= i < r.foods.len() && (#[trigger] r.foods[i]).description == d;
            if i < sv.foods.len() {
                assert(sv.foods[i].description == d);
            }
        }
    }
    assert forall|s2: Seq<char>| has_slug(sv, s2) implies has_slug(r, s2) by {
        let i = choose|i: int| 0 <= i < sv.foods.len() && (#[trigger] sv.foods[i]).slug == s2;
        assert(r.foods[i].slug == s2);
    }
}

/// Seeding preserves well-formedness, keeps every present description
/// and slug, and never shrinks a table.
proof fn lemma_seed_monotone(sv: StoreView, fs: Seq<FoodView>)
    requires
        wf(sv),
    ensures
        ({
            let r = spec_seed(sv, fs);
            &&& wf(r)
            &&& (forall|d: Seq<char>| has_description(sv, d) ==> has_description(r, d))
            &&& (forall|s2: Seq<char>| has_slug(sv, s2) ==> has_slug(r, s2))
            &&& r.foods.len() >= sv.foods.len()
            &&& r.sources.len() >= sv.sources.len()
            &&& r.images.len() >= sv.images.len()
            &&& r.tags.len() >= sv.tags.len()
            &&& r.allergens.len() >= sv.allergens.len()
            &&& r.serving_descs.len() >= sv.serving_descs.len()
            &&& r.food_tags.len() >= sv.food_tags.len()
            &&& r.food_allergens.len() >= sv.food_allergens.len()
            &&& r.food_servings.len() >= sv.food_servings.len()
        }),
    decreases fs.len(),
{
    if fs.len() > 0 {
        if skip_at(sv, fs[0]) {
            lemma_seed_monotone(sv, fs.drop_first());
        } else {
            lemma_insert_props(sv, fs[0]);
            lemma_seed_monotone(spec_insert_food(sv, fs[0]), fs.drop_first());
        }
    }
}

/// After seeding, every seeded record would be skipped if offered
/// again.
proof fn lemma_seed_covers(sv: StoreView, fs: Seq<FoodView>)
    requires
        wf(sv),
    ensures
        forall|k: int| 0 <= k < fs.len() ==> skip_at(spec_seed(sv, fs), fs[k]),
    decreases fs.len(),
{
    if fs.len() > 0 {
        let f = fs[0];
        let r = spec_seed(sv, fs);
        if skip_at(sv, f) {
            lemma_seed_covers(sv, fs.drop_first());
            lemma_seed_monotone(sv, fs.drop_first());
            assert(skip_at(r, f)) by {
                if has_description(sv, f.description) {
                } else if has_slug(sv, slug_of(f.description)) {
                } else {
                    assert(!has_capacity(sv, f));
                }
            }
            assert(forall|k: int| 1 <= k < fs.len() ==> fs.drop_first()[k - 1] == fs[k]);
        } else {
            let sv1 = spec_insert_food(sv, f);
            lemma_insert_props(sv, f);
            lemma_seed_covers(sv1, fs.drop_first());
            lemma_seed_monotone(sv1, fs.drop_first());
            assert(has_description(sv1, f.description));
            assert(has_description(r, f.description));
            assert(forall|k: int| 1 <= k < fs.len() ==> fs.drop_first()[k - 1] == fs[k]);
        }
    }
}

/// Seeding records that would all be skipped changes nothing.
proof fn lemma_seed_stable(sv: StoreView, fs: Seq<FoodView>)
    requires
        forall|k: int| 0 <= k < fs.len() ==> skip_at(sv, fs[k]),
    ensures
        spec_seed(sv, fs) == sv,
    decreases fs.len(),
{
    if fs.len() > 0 {
        assert(skip_at(sv, fs[0]));
        assert(forall|k: int| 1 <= k < fs.len() ==> fs.drop_first()[k - 1] == fs[k]);
        lemma_seed_stable(sv, fs.drop_first());
    }
}

/// Seeding is idempotent: running the seeder twice over the same
/// records produces exactly the state of running it once.
pub proof fn lemma_seed_idempotent(sv: StoreView, fs: Seq<FoodView>)
    requires
        wf(sv),
    ensures
        spec_seed(spec_seed(sv, fs), fs) == spec_seed(sv, fs),
{
    lemma_seed_covers(sv, fs);
    lemma_seed_monotone(sv, fs);
    lemma_seed_stable(spec_seed(sv, fs), fs);
}

} // verus!
