use search_core::proxy::{FilterProxy, HashProxy};
use search_core::rank::search;
use search_core::store::{Document, PostId, Storage};

fn doc(title: &str, url: &str, meta: Option<&str>, body: &str) -> Document {
    Document {
        id: PostId {
            title: title.to_string(),
            url: url.to_string(),
            meta: meta.map(|m| m.to_string()),
        },
        body: body.to_string(),
    }
}

#[test]
fn storage_round_trip_preserves_search_results() {
    let corpus = vec![
        doc("Rust Guide", "/rust", Some("lang"), "rust systems programming"),
        doc("Café Münster", "/café", None, "coffee rust reviews"),
        doc("Go Tutorial", "/go", Some("lang"), "go concurrency basics"),
    ];
    let storage = Storage::build(&corpus).unwrap();
    let bytes = storage.serialize();
    let loaded = Storage::deserialize(&bytes).unwrap();
    assert_eq!(loaded.filters.len(), 3);
    for q in ["rust", "go concurrency", "coffee", "nothing here"] {
        let a = search(&storage.filters, q.to_string(), 10);
        let b = search(&loaded.filters, q.to_string(), 10);
        assert_eq!(a.len(), b.len());
        for (x, y) in a.iter().zip(b.iter()) {
            assert_eq!(x.title, y.title);
            assert_eq!(x.url, y.url);
            assert_eq!(x.meta, y.meta);
        }
    }
}

#[test]
fn storage_round_trip_keeps_identities() {
    let corpus = vec![doc("One", "/1", Some("m"), "a b c"), doc("Two", "/2", None, "")];
    let storage = Storage::build(&corpus).unwrap();
    let loaded = Storage::deserialize(&storage.serialize()).unwrap();
    assert_eq!(loaded.filters[0].id.title, "One");
    assert_eq!(loaded.filters[0].id.url, "/1");
    assert_eq!(loaded.filters[0].id.meta, Some("m".to_string()));
    assert_eq!(loaded.filters[1].id.title, "Two");
    assert_eq!(loaded.filters[1].id.meta, None);
}

#[test]
fn storage_deserialize_rejects_malformed_bytes() {
    // Empty and truncated inputs.
    assert!(Storage::deserialize(&Vec::new()).is_err());
    assert!(Storage::deserialize(&vec![3u8, 0, 0]).is_err());
    // A count with no documents behind it.
    let mut bytes = vec![0u8; 8];
    bytes[0] = 2;
    assert!(Storage::deserialize(&bytes).is_err());
    // Trailing garbage after a valid blob.
    let storage = Storage::build(&vec![doc("T", "/t", None, "x")]).unwrap();
    let mut good = storage.serialize();
    good.push(9u8);
    assert!(Storage::deserialize(&good).is_err());
    // A corrupt character code (surrogate) inside a title.
    let storage2 = Storage::build(&vec![doc("A", "/a", None, "")]).unwrap();
    let mut bad = storage2.serialize();
    // The title's one character sits right after two u64 length fields.
    bad[16] = 0x00;
    bad[17] = 0xD8;
    bad[18] = 0x00;
    bad[19] = 0x00;
    assert!(Storage::deserialize(&bad).is_err());
}

#[test]
fn empty_storage_round_trips() {
    let storage = Storage::build(&Vec::new()).unwrap();
    let loaded = Storage::deserialize(&storage.serialize()).unwrap();
    assert_eq!(loaded.filters.len(), 0);
}

#[test]
fn proxies_keep_their_keys() {
    let fp: FilterProxy<String, u8> = FilterProxy::new("key".to_string());
    assert_eq!(fp.key(), "key");
    let hp: HashProxy<String, std::collections::hash_map::DefaultHasher, u8> =
        HashProxy::new("key".to_string());
    assert_eq!(hp.key(), "key");
}
