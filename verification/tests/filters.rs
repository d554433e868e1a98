use search_core::filter::ApproximateFilter;

fn terms(v: &[&str]) -> Vec<String> {
    v.iter().map(|s| s.to_string()).collect()
}

#[test]
fn filter_has_no_false_negatives() {
    let ts = terms(&["alpha", "beta", "gamma", "delta", "epsilon", "zeta"]);
    let f = ApproximateFilter::build(&ts).unwrap();
    for t in &ts {
        assert!(f.contains(t));
    }
}

#[test]
fn filter_handles_duplicate_terms() {
    let ts = terms(&["same", "same", "same", "other"]);
    let f = ApproximateFilter::build(&ts).unwrap();
    assert!(f.contains("same"));
    assert!(f.contains("other"));
}

#[test]
fn empty_filter_answers_absent() {
    let f = ApproximateFilter::build(&Vec::new()).unwrap();
    assert!(!f.contains("anything"));
    assert!(!f.contains(""));
}

#[test]
fn oversized_term_set_is_a_construction_error() {
    let mut ts: Vec<String> = Vec::new();
    for i in 0..4200u32 {
        ts.push(format!("term{}", i));
    }
    assert!(ApproximateFilter::build(&ts).is_err());
}

#[test]
fn filter_round_trip_preserves_membership() {
    let ts = terms(&["rust", "systems", "programming"]);
    let f = ApproximateFilter::build(&ts).unwrap();
    let bytes = f.serialize();
    let g = ApproximateFilter::deserialize(&bytes).unwrap();
    for probe in ["rust", "systems", "programming", "java", "absent", "zzz", ""] {
        assert_eq!(f.contains(probe), g.contains(probe));
    }
}

#[test]
fn empty_filter_round_trips() {
    let f = ApproximateFilter::build(&Vec::new()).unwrap();
    let bytes = f.serialize();
    let g = ApproximateFilter::deserialize(&bytes).unwrap();
    assert!(!g.contains("anything"));
}

#[test]
fn filter_deserialize_rejects_malformed_bytes() {
    // Empty input.
    assert!(ApproximateFilter::deserialize(&Vec::new()).is_err());
    // Unknown tag.
    assert!(ApproximateFilter::deserialize(&vec![7u8]).is_err());
    // Truncated body.
    assert!(ApproximateFilter::deserialize(&vec![1u8, 2, 3]).is_err());
    // Trailing garbage after a valid encoding.
    let f = ApproximateFilter::build(&terms(&["a", "b"])).unwrap();
    let mut bytes = f.serialize();
    bytes.push(0u8);
    assert!(ApproximateFilter::deserialize(&bytes).is_err());
    // A fingerprint table length that is not a multiple of three.
    let g = ApproximateFilter::build(&terms(&["a", "b"])).unwrap();
    let good = g.serialize();
    let mut bad = good.clone();
    // Bytes 9..17 hold the table length; force it to 1 and truncate to match.
    for i in 9..17 {
        bad[i] = 0;
    }
    bad[9] = 1;
    bad.truncate(17 + 1);
    assert!(ApproximateFilter::deserialize(&bad).is_err());
}
