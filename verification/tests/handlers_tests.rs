use besinveri::error::json_error_body;
use besinveri::food::{Food, Nutrition};
use besinveri::handlers::{endpoints, food, foods, foods_list, foods_search, tags_list,
    utf8_content_type, SearchParams};
use besinveri::store::Store;

fn entry(description: &str, verified: bool, tags: &[&str]) -> Food {
    Food {
        id: None,
        slug: None,
        description: description.to_owned(),
        verified: Some(verified),
        image_url: format!("/{}.jpg", description.to_lowercase()),
        source: "kaynak".to_owned(),
        tags: tags.iter().map(|t| t.to_string()).collect(),
        allergens: vec![],
        servings: vec![],
        nutrition: Nutrition::default(),
    }
}

fn sample_store() -> Store {
    let mut store = Store::new();
    store.insert_food(entry("Karpuz", true, &["Meyve"])).unwrap();
    store.insert_food(entry("Portakal", true, &["Meyve"])).unwrap();
    store.insert_food(entry("Makarna", true, &["Tah\u{0131}l"])).unwrap();
    store.insert_food(entry("Elma", true, &["Meyve"])).unwrap();
    store
}

fn params(q: &str, mode: Option<&str>, limit: Option<u64>) -> SearchParams {
    SearchParams { q: q.to_owned(), mode: mode.map(|m| m.to_owned()), limit }
}

#[test]
fn search_kar_returns_in_relevance_order() {
    // of Karpuz, Portakal, Makarna and Elma only the first and third
    // contain "kar"; the prefix match comes first
    let store = sample_store();
    let result = foods_search(&store, &params("kar", None, None), 10, "https://cdn").unwrap();
    let descs: Vec<&str> = result.iter().map(|f| f.description.as_str()).collect();
    assert_eq!(descs, vec!["Karpuz", "Makarna"]);
}

#[test]
fn food_unknown_slug_is_404_with_json_body() {
    let store = sample_store();
    let err = food(&store, "unknown-slug", "https://cdn").unwrap_err();
    assert_eq!(err.status, 404);
    let body = json_error_body(err.status, err.message.as_str());
    assert_eq!(
        body,
        "{\"status\":404,\"message\":\"Bu yemekle ilgili veriye ula\u{015F}\u{0131}lamad\u{0131}\"}"
    );
}

#[test]
fn food_unverified_is_403() {
    let mut store = sample_store();
    store.insert_food(entry("Gizli Yemek", false, &[])).unwrap();
    let err = food(&store, "gizli-yemek", "https://cdn").unwrap_err();
    assert_eq!(err.status, 403);
}

#[test]
fn search_sql_meta_characters_are_400() {
    let store = sample_store();
    let err = foods_search(&store, &params("' OR 1=1 --", None, None), 10, "https://cdn")
        .unwrap_err();
    assert_eq!(err.status, 400);
}

#[test]
fn search_unknown_mode_is_400() {
    let store = sample_store();
    let err = foods_search(&store, &params("apple", Some("unknown"), None), 10, "https://cdn")
        .unwrap_err();
    assert_eq!(err.status, 400);
}

#[test]
fn slug_length_bounds() {
    let store = sample_store();
    assert_eq!(food(&store, "", "https://cdn").unwrap_err().status, 400);
    let long101: String = "a".repeat(101);
    assert_eq!(food(&store, long101.as_str(), "https://cdn").unwrap_err().status, 400);
    // 100 characters pass the bounds check; the slug is simply unknown
    let long100: String = "a".repeat(100);
    assert_eq!(food(&store, long100.as_str(), "https://cdn").unwrap_err().status, 404);
}

#[test]
fn search_params_size_bounds() {
    let store = sample_store();
    // the fixed struct size is 64 bytes; a 32-byte query reaches
    // exactly 96 bytes and is accepted
    let q32: String = "kar".repeat(10) + "ab";
    assert_eq!(q32.len(), 32);
    assert!(foods_search(&store, &params(q32.as_str(), None, None), 10, "https://cdn").is_ok());
    // one more byte exceeds the budget
    let q33: String = "kar".repeat(11);
    assert_eq!(q33.len(), 33);
    let err = foods_search(&store, &params(q33.as_str(), None, None), 10, "https://cdn")
        .unwrap_err();
    assert_eq!(err.status, 400);
}

#[test]
fn search_limit_bounds() {
    let store = sample_store();
    // a zero limit is accepted and yields an empty result
    let empty = foods_search(&store, &params("kar", None, Some(0)), 10, "https://cdn").unwrap();
    assert!(empty.is_empty());
    // a limit beyond the configured maximum is refused
    let err = foods_search(&store, &params("kar", None, Some(11)), 10, "https://cdn").unwrap_err();
    assert_eq!(err.status, 400);
}

#[test]
fn search_mode_aliases_and_tag_mode() {
    let store = sample_store();
    let by_name = foods_search(&store, &params("kar", Some("Name"), None), 10, "https://cdn")
        .unwrap();
    assert_eq!(by_name.len(), 2);
    let by_tag = foods_search(&store, &params("meyve", Some("tag"), None), 10, "https://cdn")
        .unwrap();
    let descs: Vec<&str> = by_tag.iter().map(|f| f.description.as_str()).collect();
    assert_eq!(descs, vec!["Karpuz", "Portakal", "Elma"]);
}

#[test]
fn search_filters_unverified() {
    let mut store = Store::new();
    store.insert_food(entry("Karpuz", true, &[])).unwrap();
    store.insert_food(entry("Karamel", false, &[])).unwrap();
    let result = foods_search(&store, &params("kar", None, None), 10, "https://cdn").unwrap();
    let descs: Vec<&str> = result.iter().map(|f| f.description.as_str()).collect();
    assert_eq!(descs, vec!["Karpuz"]);
    assert!(result.iter().all(|f| f.verified == Some(true)));
}

#[test]
fn search_rewrites_relative_image_urls() {
    let store = sample_store();
    let result = foods_search(&store, &params("karpuz", None, None), 10, "https://cdn").unwrap();
    assert_eq!(result[0].image_url, "https://cdn/karpuz.jpg");
}

#[test]
fn food_found_is_rewritten_and_verified() {
    let store = sample_store();
    let f = food(&store, "karpuz", "https://cdn").unwrap();
    assert_eq!(f.description, "Karpuz");
    assert_eq!(f.verified, Some(true));
    assert_eq!(f.image_url, "https://cdn/karpuz.jpg");
}

#[test]
fn foods_list_is_sorted_by_slug() {
    let store = sample_store();
    let list = foods_list(&store, "https://api");
    let slugs: Vec<&str> = list.iter().map(|p| p.0.as_str()).collect();
    assert_eq!(slugs, vec!["elma", "karpuz", "makarna", "portakal"]);
    assert_eq!(list[0].1, "https://api/food/elma");
}

#[test]
fn foods_list_skips_unverified() {
    let mut store = sample_store();
    store.insert_food(entry("Gizli Yemek", false, &[])).unwrap();
    let list = foods_list(&store, "https://api");
    assert!(list.iter().all(|p| p.0 != "gizli-yemek"));
}

#[test]
fn tags_list_is_lowercased() {
    let store = sample_store();
    let mut tags = tags_list(&store);
    tags.sort();
    assert_eq!(tags, vec!["meyve".to_owned(), "tah\u{0131}l".to_owned()]);
}

#[test]
fn endpoint_maps() {
    let e = endpoints("https://api");
    assert_eq!(e.len(), 5);
    assert_eq!(e[0].0, "api_health_url");
    assert_eq!(e[0].1, "https://api/health");
    assert_eq!(e[4].1, "https://api/tags");
    let f = foods("https://api");
    assert_eq!(f.len(), 2);
    assert_eq!(f[0].0, "list_all_foods_url");
    assert_eq!(f[0].1, "https://api/foods/list");
}

#[test]
fn error_body_shape() {
    assert_eq!(json_error_body(400, "bad"), "{\"status\":400,\"message\":\"bad\"}");
    assert_eq!(json_error_body(0, "x"), "{\"status\":0,\"message\":\"x\"}");
    assert_eq!(json_error_body(65535, ""), "{\"status\":65535,\"message\":\"\"}");
}

#[test]
fn content_type_charset_stamping() {
    assert_eq!(utf8_content_type("application/json"), "application/json; charset=utf-8");
    assert_eq!(
        utf8_content_type("application/json; charset=utf-8"),
        "application/json; charset=utf-8"
    );
    assert_eq!(utf8_content_type("text/plain; CHARSET=ascii"), "text/plain; CHARSET=ascii");
}
