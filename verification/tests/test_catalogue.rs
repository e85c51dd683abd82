use megastore_search::catalogue::Catalogue;
use megastore_search::models::Product;

fn item(id: usize, name: &str, category: &str, tags: &[&str]) -> Product {
    Product {
        id,
        name: name.to_string(),
        category: category.to_string(),
        tags: tags.iter().map(|t| t.to_string()).collect(),
    }
}

#[test]
fn search_and_recommend() {
    let mut cat = Catalogue::new();
    cat.insert_product(item(1, "Rust Book", "Books", &["programming"]));
    cat.insert_product(item(2, "Advanced Rust", "Books", &["programming"]));
    cat.insert_product(item(3, "Mechanical Keyboard", "Electronics", &["keyboard", "gaming"]));
    cat.insert_product(item(4, "Gaming Mouse", "Electronics", &["mouse", "gaming"]));
    cat.insert_product(item(5, "Office Chair", "Furniture", &["chair", "office"]));
    cat.build_index();
    cat.build_graph();
    let results = cat.search("rust programming");
    assert!(results.iter().any(|p| p.id == 1));
    assert!(results.iter().any(|p| p.id == 2));
    let recs = cat.recommend(3, 2);
    assert!(recs.iter().any(|p| p.id == 4));
    assert!(!recs.iter().any(|p| p.id == 5));
}

#[test]
fn normalize_is_idempotent_on_samples() {
    for s in ["", "Café", "Hello World", "ÀÉÎÕÜ", "ß", "rust"] {
        let once = megastore_search::normalizer::normalize_token(s);
        let twice = megastore_search::normalizer::normalize_token(&once);
        assert_eq!(once, twice);
    }
}

#[test]
fn normalize_strips_diacritics_and_lowercases() {
    assert_eq!(megastore_search::normalizer::normalize_token("Café"), "cafe");
    assert_eq!(megastore_search::normalizer::normalize_token(""), "");
}

#[test]
fn tokenize_splits_and_normalizes() {
    let toks = megastore_search::normalizer::tokenize("Hello, Wörld! 42");
    assert_eq!(toks, vec!["hello".to_string(), "world".to_string(), "42".to_string()]);
    assert!(megastore_search::normalizer::tokenize("...!  ").is_empty());
    for t in megastore_search::normalizer::tokenize("a-b_c d") {
        assert!(!t.is_empty());
    }
}

#[test]
fn sealed_lists_are_deduplicated() {
    // A name with a repeated token must score once per list membership, not
    // twice: with ids 2 and 1 tied at one name match each, ascending id wins.
    let mut cat = Catalogue::new();
    cat.insert_product(item(2, "rust rust", "Books", &[]));
    cat.insert_product(item(1, "rust tool", "Books", &[]));
    cat.build_index();
    let results = cat.search("rust");
    let ids: Vec<usize> = results.iter().map(|p| p.id).collect();
    assert_eq!(ids, vec![1, 2]);
}

#[test]
fn search_scores_rank_both_rust_books_first() {
    let mut cat = Catalogue::new();
    cat.insert_product(item(1, "Rust Book", "Books", &["programming"]));
    cat.insert_product(item(2, "Advanced Rust", "Books", &["programming"]));
    cat.build_index();
    let results = cat.search("rust programming");
    let ids: Vec<usize> = results.iter().map(|p| p.id).collect();
    // both score 3 (name) + 1 (tag) = 4; equal scores order by ascending id
    assert_eq!(ids, vec![1, 2]);
}

#[test]
fn search_weights_name_over_category_over_tag() {
    let mut cat = Catalogue::new();
    cat.insert_product(item(1, "other", "gizmo", &[]));
    cat.insert_product(item(2, "gizmo", "other", &[]));
    cat.insert_product(item(3, "third", "misc", &["gizmo"]));
    cat.build_index();
    let results = cat.search("gizmo");
    let ids: Vec<usize> = results.iter().map(|p| p.id).collect();
    // name match (3) beats category match (2) beats tag match (1)
    assert_eq!(ids, vec![2, 1, 3]);
}

#[test]
fn recommend_top_k_and_exclusions() {
    let mut cat = Catalogue::new();
    cat.insert_product(item(3, "Keyboard", "Electronics", &["keyboard", "gaming"]));
    cat.insert_product(item(4, "Mouse", "Electronics", &["mouse", "gaming"]));
    cat.insert_product(item(5, "Chair", "Furniture", &["chair", "office"]));
    cat.build_index();
    cat.build_graph();
    // weight(3,4) = 2 (category) + 1 (shared tag "gaming"); weight(3,5) = 0
    let recs = cat.recommend(3, 2);
    let ids: Vec<usize> = recs.iter().map(|p| p.id).collect();
    assert_eq!(ids, vec![4]);
    // length never exceeds k, the query id never appears
    let recs1 = cat.recommend(4, 1);
    assert!(recs1.len() <= 1);
    assert!(!recs1.iter().any(|p| p.id == 4));
    // unknown id: empty, not an error
    assert!(cat.recommend(99, 3).is_empty());
    // k == 0: empty
    assert!(cat.recommend(3, 0).is_empty());
}

#[test]
fn recommend_is_symmetric_for_built_pairs() {
    let mut cat = Catalogue::new();
    cat.insert_product(item(3, "Keyboard", "Electronics", &["gaming"]));
    cat.insert_product(item(4, "Mouse", "Electronics", &["gaming"]));
    cat.build_graph();
    assert!(cat.recommend(3, 5).iter().any(|p| p.id == 4));
    assert!(cat.recommend(4, 5).iter().any(|p| p.id == 3));
}

#[test]
fn recommend_orders_by_weight_then_id() {
    let mut cat = Catalogue::new();
    // neighbors of 1: 2 (category + tag = weight 3), 3 (tag only = weight 1),
    // 4 (category only = weight 2)
    cat.insert_product(item(1, "a", "X", &["t"]));
    cat.insert_product(item(2, "b", "X", &["t"]));
    cat.insert_product(item(3, "c", "Y", &["t"]));
    cat.insert_product(item(4, "d", "X", &["u"]));
    cat.build_graph();
    let ids: Vec<usize> = cat.recommend(1, 10).iter().map(|p| p.id).collect();
    assert_eq!(ids, vec![2, 4, 3]);
}

#[test]
fn rebuild_reflects_new_items_only_after_build() {
    let mut cat = Catalogue::new();
    cat.insert_product(item(1, "Rust Book", "Books", &["programming"]));
    cat.build_index();
    cat.build_graph();
    cat.insert_product(item(2, "Advanced Rust", "Books", &["programming"]));
    // not rebuilt yet: the new item is invisible to queries
    let before: Vec<usize> = cat.search("rust").iter().map(|p| p.id).collect();
    assert_eq!(before, vec![1]);
    assert!(cat.recommend(1, 5).is_empty());
    cat.build_index();
    cat.build_graph();
    let after: Vec<usize> = cat.search("rust").iter().map(|p| p.id).collect();
    assert_eq!(after, vec![1, 2]);
    let recs: Vec<usize> = cat.recommend(1, 5).iter().map(|p| p.id).collect();
    assert_eq!(recs, vec![2]);
}

#[test]
fn insert_with_same_id_replaces() {
    let mut cat = Catalogue::new();
    cat.insert_product(item(1, "Old Name", "Books", &[]));
    cat.insert_product(item(1, "Fresh Name", "Books", &[]));
    cat.build_index();
    assert!(cat.search("old").is_empty());
    let ids: Vec<usize> = cat.search("fresh").iter().map(|p| p.id).collect();
    assert_eq!(ids, vec![1]);
}

#[test]
fn empty_query_and_no_matches() {
    let mut cat = Catalogue::new();
    cat.insert_product(item(1, "Rust Book", "Books", &["programming"]));
    cat.build_index();
    assert!(cat.search("").is_empty());
    assert!(cat.search("zzz qqq").is_empty());
}
