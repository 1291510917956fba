use besinveri::food::{Food, Nutrition, Serving};
use besinveri::ranker::sort_foods_by_query;

fn food(id: i64, slug: &str, description: &str, verified: bool) -> Food {
    Food {
        id: Some(id),
        slug: Some(slug.to_owned()),
        description: description.to_owned(),
        verified: Some(verified),
        image_url: format!("http://example.com/{}.jpg", slug),
        source: "Wikipedia".to_owned(),
        tags: vec!["meyve".to_owned()],
        allergens: vec![],
        servings: vec![Serving { description: "portion".to_owned(), weight: 100.0f64.to_bits() }],
        nutrition: Nutrition::default(),
    }
}

fn create_test_foods() -> Vec<Food> {
    vec![
        food(1, "karpuz", "Karpuz yaz meyvesi olarak bilinir", true),
        food(2, "portakal", "Portakal C vitamini a\u{00E7}\u{0131}s\u{0131}ndan zengindir", true),
        food(3, "makarna", "Makarna \u{0130}talyan mutfa\u{011F}\u{0131}n\u{0131}n temelidir", true),
        food(4, "elma", "Elma g\u{00FC}neydo\u{011F}u Asya k\u{00F6}kenlidir", false),
    ]
}

#[test]
fn test_sort_by_query_prefix_match() {
    let mut foods = create_test_foods();
    sort_foods_by_query(&mut foods, "kar");

    assert_eq!(foods[0].slug, Some("karpuz".to_string()));
    assert_eq!(foods[1].slug, Some("makarna".to_string()));
    assert_eq!(foods[2].slug, Some("portakal".to_string()));
    assert_eq!(foods[3].slug, Some("elma".to_string()));
}

#[test]
fn test_sort_by_query_position_scoring() {
    let mut foods = vec![
        food(
            1,
            "baslangic",
            "Ka\u{015F}ar peyniri ba\u{015F}lang\u{0131}\u{00E7}ta kullan\u{0131}l\u{0131}r",
            true,
        ),
        food(2, "orta", "Peynir ka\u{015F}ar peyniri ortada erir", true),
        food(3, "son", "Peynir ortada ka\u{015F}ar peyniri sonda", true),
    ];

    sort_foods_by_query(&mut foods, "ka\u{015F}ar");

    assert_eq!(foods[0].slug, Some("baslangic".to_string()));
    assert_eq!(foods[1].slug, Some("orta".to_string()));
    assert_eq!(foods[2].slug, Some("son".to_string()));
}

#[test]
fn test_sort_by_query_no_match() {
    let mut foods = create_test_foods();
    let original_order = foods.clone();

    sort_foods_by_query(&mut foods, "xyz");

    assert_eq!(foods, original_order);
}

#[test]
fn test_sort_by_query_empty_query() {
    let mut foods = create_test_foods();
    let original_order = foods.clone();

    sort_foods_by_query(&mut foods, "");

    assert_eq!(foods, original_order);
}

#[test]
fn test_sort_by_query_empty_vec() {
    let mut foods: Vec<Food> = vec![];
    let original = foods.clone();

    sort_foods_by_query(&mut foods, "test");

    assert_eq!(foods, original);
}

#[test]
fn test_sort_by_query_case_insensitive() {
    let mut foods = create_test_foods();

    sort_foods_by_query(&mut foods, "KaR");

    assert_eq!(foods[0].slug, Some("karpuz".to_string()));
}

#[test]
fn test_sort_by_query_stable_sort() {
    let mut foods = vec![food(1, "karpuz", "Karpuz", true), food(2, "portakal", "Portakal", true)];

    let original_order = foods.clone();
    sort_foods_by_query(&mut foods, "ka");

    assert_eq!(foods, original_order);
}

#[test]
fn test_sort_scores_exact() {
    // "kar" in "makarna" sits at byte position 2 of 7, so the
    // relevance score is floor(10 * (7 - 2) / 7) = 7: it must come
    // after any prefix match and before any non-match.
    let mut foods = vec![
        food(1, "elma", "Elma", true),
        food(2, "makarna", "Makarna", true),
        food(3, "karpuz", "Karpuz", true),
    ];
    sort_foods_by_query(&mut foods, "kar");
    assert_eq!(foods[0].slug, Some("karpuz".to_string()));
    assert_eq!(foods[1].slug, Some("makarna".to_string()));
    assert_eq!(foods[2].slug, Some("elma".to_string()));
}
