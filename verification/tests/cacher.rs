use nasir::cacher::{chain_result, fallback_url, ByteCacher, Cacher, InternalCacheState, ProbeOutcome};

#[test]
fn cache_dedup() {
    // several probes of one unresolved key dispatch exactly one fetch
    let mut cache: ByteCacher = Cacher::new();
    let mut dispatches = 0;
    for _ in 0..5 {
        match cache.probe("example.com/x") {
            ProbeOutcome::StartFetch => dispatches += 1,
            ProbeOutcome::InFlight => {}
            ProbeOutcome::Ready(_) => panic!("nothing was stored yet"),
        }
    }
    assert_eq!(dispatches, 1);
}

#[test]
fn cache_store_and_probe() {
    let mut cache: ByteCacher = Cacher::new();
    assert!(matches!(cache.probe("k"), ProbeOutcome::StartFetch));
    cache.store_fetched("k", Some(vec![1, 2, 3]));
    match cache.probe("k") {
        ProbeOutcome::Ready(b) => assert_eq!(b, vec![1, 2, 3]),
        other => panic!("expected stored bytes, got {other:?}"),
    }
    // a failed fetch reverts the key so a later probe retries
    let mut c2: ByteCacher = Cacher::new();
    assert!(matches!(c2.probe("r"), ProbeOutcome::StartFetch));
    c2.store_fetched("r", None);
    assert!(matches!(c2.probe("r"), ProbeOutcome::StartFetch));
}

#[test]
fn cache_fallback_chain() {
    // the key fails as given but succeeds with the https scheme
    let key = "example.com/x";
    let body = vec![42u8, 7];
    let mut results: Vec<Option<Vec<u8>>> = Vec::new();
    let mut attempt = 0;
    while let Some(url) = fallback_url(key, attempt) {
        if url == "https://example.com/x" {
            results.push(Some(body.clone()));
        } else {
            results.push(None);
        }
        attempt += 1;
    }
    assert_eq!(results.len(), 3);
    let picked = chain_result(results[0].clone(), results[1].clone(), results[2].clone());
    assert_eq!(picked, Some(body.clone()));
    let mut cache: ByteCacher = Cacher::new();
    assert!(matches!(cache.probe(key), ProbeOutcome::StartFetch));
    cache.store_fetched(key, picked);
    match cache.probe(key) {
        ProbeOutcome::Ready(b) => assert_eq!(b, body),
        other => panic!("expected the recovered bytes, got {other:?}"),
    }
}

#[test]
fn try_stored_variants() {
    assert_eq!(InternalCacheState::Stored(5u8).try_stored(), Some(5));
    assert_eq!(InternalCacheState::<u8>::Calling.try_stored(), None);
    assert_eq!(InternalCacheState::<u8>::Empty.try_stored(), None);
}
