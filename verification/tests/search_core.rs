use search_core::rank::search;
use search_core::score::score;
use search_core::store::{Document, PostId, Storage};
use search_core::text::tokenize;

fn doc(title: &str, url: &str, meta: Option<&str>, body: &str) -> Document {
    Document {
        id: PostId {
            title: title.to_string(),
            url: url.to_string(),
            meta: meta.map(|m| m.to_string()),
        },
        body: body.to_string(),
    }
}

fn two_doc_storage() -> Storage {
    let corpus = vec![
        doc("Rust Guide", "/rust", None, "rust systems programming"),
        doc("Go Tutorial", "/go", None, "go concurrency basics"),
    ];
    Storage::build(&corpus).unwrap()
}

#[test]
fn scenario_title_hit_scores_three() {
    let storage = two_doc_storage();
    let results = search(&storage.filters, "rust".to_string(), 5);
    assert_eq!(results.len(), 1);
    assert_eq!(results[0].title, "Rust Guide");
    assert_eq!(results[0].url, "/rust");
    // One exact title hit, weight 3; the filter adds nothing for a term
    // already counted against the title.
    let q = tokenize("rust");
    let sc = score("Rust Guide", &q, &storage.filters[0].filter);
    assert_eq!(sc, 3);
}

#[test]
fn scenario_no_match_returns_empty() {
    let storage = two_doc_storage();
    let results = search(&storage.filters, "java".to_string(), 5);
    assert_eq!(results.len(), 0);
}

#[test]
fn body_terms_count_through_the_filter() {
    let storage = two_doc_storage();
    // "concurrency" is only in the Go document's body: one filter hit.
    let q = tokenize("go concurrency");
    let sc = score("Go Tutorial", &q, &storage.filters[1].filter);
    assert_eq!(sc, 4);
    let results = search(&storage.filters, "go concurrency".to_string(), 5);
    assert_eq!(results.len(), 1);
    assert_eq!(results[0].title, "Go Tutorial");
}

#[test]
fn ties_keep_storage_order() {
    let storage = two_doc_storage();
    // One title hit each: equal scores, so insertion order decides.
    let results = search(&storage.filters, "rust go".to_string(), 10);
    assert_eq!(results.len(), 2);
    assert_eq!(results[0].title, "Rust Guide");
    assert_eq!(results[1].title, "Go Tutorial");
}

#[test]
fn higher_scores_come_first() {
    let corpus = vec![
        doc("alpha", "/a", None, "unrelated words"),
        doc("alpha beta", "/ab", None, "more words"),
    ];
    let storage = Storage::build(&corpus).unwrap();
    // Two title hits beat one; the second document overtakes the first.
    let results = search(&storage.filters, "alpha beta".to_string(), 10);
    assert_eq!(results.len(), 2);
    assert_eq!(results[0].title, "alpha beta");
    assert_eq!(results[1].title, "alpha");
}

#[test]
fn limit_zero_returns_empty() {
    let storage = two_doc_storage();
    let results = search(&storage.filters, "rust go".to_string(), 0);
    assert_eq!(results.len(), 0);
}

#[test]
fn huge_limit_returns_all_matches() {
    let storage = two_doc_storage();
    let results = search(&storage.filters, "rust go".to_string(), usize::MAX);
    assert_eq!(results.len(), 2);
}

#[test]
fn search_is_deterministic() {
    let storage = two_doc_storage();
    let a = search(&storage.filters, "rust go basics".to_string(), 10);
    let b = search(&storage.filters, "rust go basics".to_string(), 10);
    assert_eq!(a.len(), b.len());
    for (x, y) in a.iter().zip(b.iter()) {
        assert_eq!(x.title, y.title);
        assert_eq!(x.url, y.url);
        assert_eq!(x.meta, y.meta);
    }
}

#[test]
fn adding_a_title_matching_term_raises_the_score() {
    let storage = two_doc_storage();
    let f = &storage.filters[0].filter;
    let less = score("Rust Guide", &tokenize("rust"), f);
    let more = score("Rust Guide", &tokenize("rust guide"), f);
    assert!(more > less);
}

#[test]
fn empty_query_matches_nothing() {
    let storage = two_doc_storage();
    let results = search(&storage.filters, "   ".to_string(), 10);
    assert_eq!(results.len(), 0);
}

#[test]
fn non_ascii_case_folds_in_search() {
    let corpus = vec![doc("CAFÉ Guide", "/cafe", None, "espresso beans")];
    let storage = Storage::build(&corpus).unwrap();
    let results = search(&storage.filters, "café".to_string(), 5);
    assert_eq!(results.len(), 1);
    assert_eq!(results[0].title, "CAFÉ Guide");
    let sc = score("CAFÉ Guide", &tokenize("café"), &storage.filters[0].filter);
    assert_eq!(sc, 3);
}

#[test]
fn try_search_checks_the_bound_and_searches() {
    let storage = two_doc_storage();
    let results = search_core::rank::try_search(&storage.filters, "rust".to_string(), 5).unwrap();
    assert_eq!(results.len(), 1);
    assert_eq!(results[0].title, "Rust Guide");
}
