use complesh::completer::CandidateCache;
use std::cell::Cell;

#[test]
fn test_scan_runs_exactly_once_per_root() {
    let mut cache = CandidateCache::new();
    let scans = Cell::new(0u32);
    for _ in 0..3 {
        let got = cache.get_or_scan("alpha", || {
            scans.set(scans.get() + 1);
            vec!["a1".to_string(), "a2".to_string()]
        });
        assert_eq!(got, vec!["a1".to_string(), "a2".to_string()]);
    }
    assert_eq!(scans.get(), 1);
}

#[test]
fn test_distinct_roots_scan_independently() {
    let mut cache = CandidateCache::new();
    let scans = Cell::new(0u32);
    let first = cache.get_or_scan("one", || {
        scans.set(scans.get() + 1);
        vec!["x".to_string()]
    });
    let second = cache.get_or_scan("two", || {
        scans.set(scans.get() + 1);
        vec!["y".to_string()]
    });
    assert_eq!(first, vec!["x".to_string()]);
    assert_eq!(second, vec!["y".to_string()]);
    assert_eq!(scans.get(), 2);
    // both stay answered from the cache afterwards
    let again = cache.get_or_scan("one", || {
        scans.set(scans.get() + 1);
        vec!["never".to_string()]
    });
    assert_eq!(again, vec!["x".to_string()]);
    assert_eq!(scans.get(), 2);
}

#[test]
fn test_cache_keeps_first_answer_forever() {
    let mut cache = CandidateCache::new();
    let first = cache.get_or_scan("root", || vec!["kept".to_string()]);
    let second = cache.get_or_scan("root", || vec!["ignored".to_string()]);
    assert_eq!(first, second);
    assert_eq!(second, vec!["kept".to_string()]);
}
