use besinveri::food::{Food, Nutrition, Serving};
use besinveri::slug::to_lower_en_kebab_case;
use besinveri::seed::seed_foods;
use besinveri::store::{Store, StoreError};

fn nutrition_basic() -> Nutrition {
    Nutrition {
        glycemic_index: 50.0f64.to_bits(),
        energy: 100.0f64.to_bits(),
        carbohydrate: 20.0f64.to_bits(),
        protein: 5.0f64.to_bits(),
        fat: 2.0f64.to_bits(),
        saturated_fat: 1.0f64.to_bits(),
        trans_fat: 0.0f64.to_bits(),
        sugar: 10.0f64.to_bits(),
        fiber: 3.0f64.to_bits(),
        water: 55.0f64.to_bits(),
        cholesterol: 0.0f64.to_bits(),
        sodium: 50.0f64.to_bits(),
        potassium: 200.0f64.to_bits(),
        iron: 1.0f64.to_bits(),
        magnesium: 30.0f64.to_bits(),
        calcium: 10.0f64.to_bits(),
        zinc: 0.5f64.to_bits(),
        vitamin_a: 0.1f64.to_bits(),
        vitamin_b6: 0.2f64.to_bits(),
        vitamin_b12: 0.0f64.to_bits(),
        vitamin_c: 5.0f64.to_bits(),
        vitamin_d: 0.0f64.to_bits(),
        vitamin_e: 0.1f64.to_bits(),
        vitamin_k: 0.05f64.to_bits(),
    }
}

fn seed_food(description: &str, image_url: &str, source: &str, tags: &[&str]) -> Food {
    Food {
        id: None,
        slug: None,
        description: description.to_owned(),
        verified: None,
        image_url: image_url.to_owned(),
        source: source.to_owned(),
        tags: tags.iter().map(|t| t.to_string()).collect(),
        allergens: vec![],
        servings: vec![],
        nutrition: nutrition_basic(),
    }
}

#[test]
fn test_food_exists_by_description() {
    let mut store = Store::new();
    let food = seed_food("Test Yemek", "/test.jpg", "test_source", &["test"]);
    store.insert_food(food).unwrap();

    let exists = store.food_exists_by_description("Test Yemek");
    assert!(exists);

    let not_exists = store.food_exists_by_description("Nonexistent");
    assert!(!not_exists);
}

#[test]
fn test_insert_food_assigns_id() {
    let mut store = Store::new();
    let food = seed_food("JSON Test Yemek", "/json_test.jpg", "json_source", &["json_tag"]);
    let result = store.insert_food(food);
    assert!(result.is_ok(), "Yemek eklenemedi");
    let food_id = result.unwrap().id.unwrap();
    assert!(food_id > 0, "Ge\u{00E7}erli bir ID olmal\u{0131}");
}

#[test]
fn test_insert_food_duplicate_description() {
    let mut store = Store::new();
    store.insert_food(seed_food("Elma", "/elma.jpg", "src", &["meyve"])).unwrap();
    let err = store.insert_food(seed_food("Elma", "/other.jpg", "src2", &[])).unwrap_err();
    assert_eq!(err, StoreError::AlreadyExists);
    // the failed ingestion left no partial rows behind
    assert_eq!(store.foods.len(), 1);
    assert_eq!(store.sources.len(), 1);
    assert_eq!(store.images.len(), 1);
}

#[test]
fn test_insert_food_slug_collision() {
    let mut store = Store::new();
    store.insert_food(seed_food("Fuji Elma", "/a.jpg", "src", &[])).unwrap();
    // a different description with the same derived slug is refused
    let err = store.insert_food(seed_food("Fuji  Elma", "/b.jpg", "src", &[])).unwrap_err();
    assert_eq!(err, StoreError::Failure);
    assert_eq!(store.foods.len(), 1);
}

#[test]
fn test_select_all_foods_slugs() {
    let mut store = Store::new();
    store.insert_food(seed_food("Fuji Elma", "/fuji-elma.jpg", "test_source", &["meyve"])).unwrap();
    store.insert_food(seed_food("Muz", "/muz.jpg", "test_source", &["meyve"])).unwrap();

    let result = store.select_all_foods_slugs();

    assert_eq!(result.len(), 2, "\u{0130}ki yemek slug'\u{0131} bekleniyor");
    assert!(
        result.contains(&"fuji-elma".to_string()),
        "\u{0130}lk slug 'fuji-elma' bulunamad\u{0131}"
    );
    assert!(result.contains(&"muz".to_string()), "\u{0130}kinci slug 'muz' bulunamad\u{0131}");
}

#[test]
fn test_select_food_by_slug_basic() {
    let mut store = Store::new();
    let mut f = seed_food("Test Food", "/test.jpg", "test_source", &["test"]);
    f.verified = None;
    store.insert_food(f).unwrap();

    let result = store.select_food_by_slug("test-food").unwrap();

    assert_eq!(result.slug, Some("test-food".to_owned()));
    assert_eq!(result.description, "Test Food");
    assert_eq!(result.nutrition.energy, 100.0f64.to_bits());
    assert_eq!(result.nutrition.glycemic_index, 50.0f64.to_bits());
}

#[test]
fn test_select_food_by_slug_not_found() {
    let store = Store::new();
    let result = store.select_food_by_slug("nonexistent");
    assert!(result.is_err(), "Food bulunamad\u{0131} hatas\u{0131} bekleniyor");
}

#[test]
fn test_select_food_by_slug_multiple_foods() {
    let mut store = Store::new();
    let mut apple = seed_food("Apple", "/apple.jpg", "test_source", &["fruit"]);
    apple.nutrition.energy = 52.0f64.to_bits();
    let mut banana = seed_food("Banana", "/banana.jpg", "test_source", &["fruit"]);
    banana.nutrition.energy = 89.0f64.to_bits();
    banana.nutrition.potassium = 358.0f64.to_bits();

    store.insert_food(apple).unwrap();
    store.insert_food(banana).unwrap();

    let apple = store.select_food_by_slug("apple").unwrap();
    let banana = store.select_food_by_slug("banana").unwrap();

    assert_eq!(apple.description, "Apple");
    assert_eq!(apple.nutrition.energy, 52.0f64.to_bits());
    assert_eq!(banana.description, "Banana");
    assert_eq!(banana.nutrition.energy, 89.0f64.to_bits());
    assert_eq!(banana.nutrition.potassium, 358.0f64.to_bits());
}

#[test]
fn test_select_food_relations() {
    let mut store = Store::new();
    let mut f = seed_food("Relations Test", "/relations.jpg", "test_source", &["Test"]);
    f.allergens = vec!["Nuts".to_owned()];
    f.servings = vec![Serving { description: "100g".to_owned(), weight: 100.0f64.to_bits() }];
    store.insert_food(f).unwrap();

    let food = store.select_food_by_slug("relations-test").unwrap();

    assert_eq!(food.description, "Relations Test");
    // tags and allergens come back lower-cased; servings keep their case
    assert_eq!(food.tags, vec!["test".to_owned()]);
    assert_eq!(food.allergens, vec!["nuts".to_owned()]);
    assert_eq!(food.servings.len(), 1);
    assert_eq!(food.servings[0].description, "100g");
    assert_eq!(food.servings[0].weight, 100.0f64.to_bits());
}

#[test]
fn seed_single_food_scenario() {
    // a single seeded record gets the derived slug, defaults to
    // verified, and stores its tag lower-cased
    let mut store = Store::new();
    let f = seed_food("Fuji Elma", "/fuji.jpg", "kaynak", &["Meyve"]);
    seed_foods(&mut store, vec![f]);

    let got = store.select_food_by_slug("fuji-elma").unwrap();
    assert_eq!(got.slug, Some("fuji-elma".to_owned()));
    assert_eq!(got.verified, Some(true));
    assert_eq!(got.tags, vec!["meyve".to_owned()]);
}

#[test]
fn seed_twice_same_row_counts() {
    // seeding the same records twice leaves exactly the state of one run
    let records = || {
        vec![
            seed_food("Fuji Elma", "/fuji.jpg", "kaynak", &["Meyve"]),
            seed_food("Muz", "/muz.jpg", "kaynak", &["Meyve", "Tropik"]),
        ]
    };
    let mut store = Store::new();
    seed_foods(&mut store, records());
    let foods_once = store.foods.len();
    let tags_once = store.tags.len();
    let links_once = store.food_tags.len();
    let sources_once = store.sources.len();

    seed_foods(&mut store, records());
    assert_eq!(store.foods.len(), foods_once);
    assert_eq!(store.tags.len(), tags_once);
    assert_eq!(store.food_tags.len(), links_once);
    assert_eq!(store.sources.len(), sources_once);
}

#[test]
fn round_trip_preserves_fields() {
    let mut store = Store::new();
    let mut f = seed_food("Ka\u{015F}ar Peyniri", "/kasar.jpg", "kaynak", &["Peynir", "S\u{00FC}t"]);
    f.allergens = vec!["S\u{00FC}t".to_owned()];
    f.servings = vec![
        Serving { description: "Porsiyon (Orta)".to_owned(), weight: 150.0f64.to_bits() },
        Serving { description: "Dilim".to_owned(), weight: 25.0f64.to_bits() },
    ];
    let source = f.source.clone();
    let image = f.image_url.clone();
    let nutrition = f.nutrition;
    store.insert_food(f).unwrap();

    let got = store.select_food_by_slug("kasar-peyniri").unwrap();
    assert_eq!(got.description, "Ka\u{015F}ar Peyniri");
    assert_eq!(got.source, source);
    assert_eq!(got.image_url, image);
    assert_eq!(got.nutrition, nutrition);
    let mut tags = got.tags.clone();
    tags.sort();
    assert_eq!(tags, vec!["peynir".to_owned(), "s\u{00FC}t".to_owned()]);
    assert_eq!(got.allergens, vec!["s\u{00FC}t".to_owned()]);
    assert_eq!(got.servings.len(), 2);
    assert_eq!(got.servings[0].description, "Porsiyon (Orta)");
    assert_eq!(got.servings[0].weight, 150.0f64.to_bits());
    assert_eq!(got.servings[1].description, "Dilim");
    assert_eq!(got.servings[1].weight, 25.0f64.to_bits());
}

#[test]
fn search_by_description_and_tag() {
    let mut store = Store::new();
    store.insert_food(seed_food("Karpuz", "/karpuz.jpg", "kaynak", &["Meyve"])).unwrap();
    store.insert_food(seed_food("Makarna", "/makarna.jpg", "kaynak", &["Tah\u{0131}l"])).unwrap();

    let by_desc = store.search_foods_by_description_wild("KAR");
    let descs: Vec<&str> = by_desc.iter().map(|f| f.description.as_str()).collect();
    assert_eq!(descs, vec!["Karpuz", "Makarna"]);

    let by_tag = store.search_foods_by_tag_wild("meyve");
    assert_eq!(by_tag.len(), 1);
    assert_eq!(by_tag[0].description, "Karpuz");
}

#[test]
fn slug_derivation_examples() {
    assert_eq!(to_lower_en_kebab_case("Fuji Elma"), "fuji-elma");
    assert_eq!(to_lower_en_kebab_case("Ka\u{015F}ar Peyniri"), "kasar-peyniri");
    assert_eq!(
        to_lower_en_kebab_case("  \u{00C7}ilek & \u{00DC}z\u{00FC}m!!"),
        "cilek-uzum"
    );
    assert_eq!(to_lower_en_kebab_case("A  B"), "a-b");
    assert_eq!(to_lower_en_kebab_case(""), "");
}

#[test]
fn every_listed_slug_is_fetchable() {
    let mut store = Store::new();
    seed_foods(
        &mut store,
        vec![
            seed_food("Fuji Elma", "/fuji.jpg", "kaynak", &["Meyve"]),
            seed_food("Muz", "/muz.jpg", "kaynak", &["Meyve"]),
            seed_food("Karpuz", "/karpuz.jpg", "kaynak", &["Meyve"]),
        ],
    );
    for slug in store.select_all_foods_slugs() {
        let food = store.select_food_by_slug(slug.as_str()).unwrap();
        assert_eq!(food.slug, Some(slug));
        assert_eq!(food.verified, Some(true));
    }
}
