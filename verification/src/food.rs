//! The catalog data model: one food entry with its nutritional
//! composition, tags, allergens and portion sizes.
//!
//! Numeric nutrition values are carried as the bit patterns of 64-bit
//! IEEE-754 numbers; the crate never interprets them, it only stores
//! and returns them, so round-trips are bit-identical by construction.

use vstd::prelude::*;

verus! {

/// The fixed set of per-100g nutrition values of a food, each one the
/// bit pattern of a 64-bit IEEE-754 number.
#[derive(Clone, Copy, Debug, PartialEq, Eq, Structural)]
pub struct Nutrition {
    pub glycemic_index: u64,
    pub energy: u64,
    pub carbohydrate: u64,
    pub protein: u64,
    pub fat: u64,
    pub saturated_fat: u64,
    pub trans_fat: u64,
    pub sugar: u64,
    pub fiber: u64,
    pub water: u64,
    pub cholesterol: u64,
    pub sodium: u64,
    pub potassium: u64,
    pub iron: u64,
    pub magnesium: u64,
    pub calcium: u64,
    pub zinc: u64,
    pub vitamin_a: u64,
    pub vitamin_b6: u64,
    pub vitamin_b12: u64,
    pub vitamin_c: u64,
    pub vitamin_d: u64,
    pub vitamin_e: u64,
    pub vitamin_k: u64,
}

impl Default for Nutrition {
    /// All-zero nutrition values (the bit pattern of +0.0 throughout).
    fn default() -> (r: Nutrition)
        ensures
            r == (Nutrition {
                glycemic_index: 0,
                energy: 0,
                carbohydrate: 0,
                protein: 0,
                fat: 0,
                saturated_fat: 0,
                trans_fat: 0,
                sugar: 0,
                fiber: 0,
                water: 0,
                cholesterol: 0,
                sodium: 0,
                potassium: 0,
                iron: 0,
                magnesium: 0,
                calcium: 0,
                zinc: 0,
                vitamin_a: 0,
                vitamin_b6: 0,
                vitamin_b12: 0,
                vitamin_c: 0,
                vitamin_d: 0,
                vitamin_e: 0,
                vitamin_k: 0,
            }),
    {
        Nutrition {
            glycemic_index: 0,
            energy: 0,
            carbohydrate: 0,
            protein: 0,
            fat: 0,
            saturated_fat: 0,
            trans_fat: 0,
            sugar: 0,
            fiber: 0,
            water: 0,
            cholesterol: 0,
            sodium: 0,
            potassium: 0,
            iron: 0,
            magnesium: 0,
            calcium: 0,
            zinc: 0,
            vitamin_a: 0,
            vitamin_b6: 0,
            vitamin_b12: 0,
            vitamin_c: 0,
            vitamin_d: 0,
            vitamin_e: 0,
            vitamin_k: 0,
        }
    }
}

/// One portion of a food: a display description and a weight in grams
/// (as a 64-bit IEEE-754 bit pattern).
#[derive(Clone, Debug, PartialEq)]
pub struct Serving {
    pub description: String,
    pub weight: u64,
}

/// Mathematical value of a [`Serving`].
pub struct ServingView {
    pub description: Seq<char>,
    pub weight: u64,
}

impl View for Serving {
    type V = ServingView;

    open spec fn view(&self) -> ServingView {
        ServingView { description: self.description@, weight: self.weight }
    }
}

/// One catalog entry.  `id` and `slug` are assigned by the store;
/// entries arriving from a seed file leave them `None`.  A missing
/// `verified` defaults to `true` at ingestion.
#[derive(Clone, Debug, PartialEq)]
pub struct Food {
    pub id: Option<i64>,
    pub slug: Option<String>,
    pub description: String,
    pub verified: Option<bool>,
    pub image_url: String,
    pub source: String,
    pub tags: Vec<String>,
    pub allergens: Vec<String>,
    pub servings: Vec<Serving>,
    pub nutrition: Nutrition,
}

/// Mathematical value of a [`Food`].
#[verifier::ext_equal]
pub struct FoodView {
    pub id: Option<i64>,
    pub slug: Option<Seq<char>>,
    pub description: Seq<char>,
    pub verified: Option<bool>,
    pub image_url: Seq<char>,
    pub source: Seq<char>,
    pub tags: Seq<Seq<char>>,
    pub allergens: Seq<Seq<char>>,
    pub servings: Seq<ServingView>,
    pub nutrition: Nutrition,
}

impl View for Food {
    type V = FoodView;

    open spec fn view(&self) -> FoodView {
        FoodView {
            id: self.id,
            slug: match self.slug {
                Some(s) => Some(s@),
                None => None,
            },
            description: self.description@,
            verified: self.verified,
            image_url: self.image_url@,
            source: self.source@,
            tags: self.tags.deep_view(),
            allergens: self.allergens.deep_view(),
            servings: Seq::new(self.servings@.len(), |i: int| self.servings@[i]@),
            nutrition: self.nutrition,
        }
    }
}

/// The sequence of views of a vector of foods.
pub open spec fn views_of(s: Seq<Food>) -> Seq<FoodView> {
    Seq::new(s.len(), |i: int| s[i]@)
}

} // verus!
