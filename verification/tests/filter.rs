use complesh::filter::spaced::SpacedFilter;
use complesh::readkeys::Printable;

#[test]
fn test_match_is_none_when_not_a_subsequence() {
    assert!(SpacedFilter::matched("abc", "abd").is_none());
    assert!(SpacedFilter::matched("abc", "cba").is_none());
    assert!(SpacedFilter::matched("x", "").is_none());
}

#[test]
fn test_match_is_some_when_a_subsequence() {
    assert!(SpacedFilter::matched("abc", "abc").is_some());
    assert!(SpacedFilter::matched("abc", "xaxbxcx").is_some());
    assert!(SpacedFilter::matched("", "anything").is_some());
    assert!(SpacedFilter::matched("", "").is_some());
}

#[test]
fn test_match_is_case_insensitive() {
    assert!(SpacedFilter::matched("AbC", "xaxbxcx").is_some());
    assert!(SpacedFilter::matched("abc", "XAXBXCX").is_some());
}

#[test]
fn test_contiguous_outranks_scattered() {
    let contiguous = SpacedFilter::weigh("abc", "abcxyz").unwrap();
    let scattered = SpacedFilter::weigh("abc", "axbxcx").unwrap();
    assert!(contiguous.ge(&scattered));
    assert!(!scattered.ge(&contiguous));
    assert_eq!(contiguous.cmp(&scattered), std::cmp::Ordering::Less);
}

#[test]
fn test_earlier_match_outranks_later() {
    let early = SpacedFilter::weigh("x", "xaaa").unwrap();
    let late = SpacedFilter::weigh("x", "aaax").unwrap();
    assert!(early.ge(&late));
    assert!(!late.ge(&early));
}

#[test]
fn test_weigh_components_are_exact() {
    // a run-opening match earns ten points; the first-match penalty is the
    // 1-based index of where the match began
    let early = SpacedFilter::weigh("x", "xaaa").unwrap();
    assert_eq!(early.score, 10);
    assert_eq!(early.length, 4);
    assert_eq!(early.penalty, 1);
    let late = SpacedFilter::weigh("x", "aaax").unwrap();
    assert_eq!(late.score, 1);
    assert_eq!(late.length, 4);
    assert_eq!(late.penalty, 4);
    // a contiguous run keeps earning the large bonus
    let contiguous = SpacedFilter::weigh("abc", "abcxyz").unwrap();
    assert_eq!(contiguous.score, 30);
    // a broken run restarts at the small bonus
    let scattered = SpacedFilter::weigh("abc", "axbxcx").unwrap();
    assert_eq!(scattered.score, 12);
}

#[test]
fn test_weigh_annotates_matched_characters() {
    let m = SpacedFilter::weigh("a", "ab").unwrap();
    assert_eq!(m.original, "ab");
    // the annotated text differs from the raw candidate and strips back to it
    assert_ne!(m.result, "ab");
    assert_eq!(m.result.without_escape_codes(), "ab");
}

#[test]
fn test_weigh_strips_leading_dot_slash_for_display() {
    let m = SpacedFilter::weigh("x", "./x").unwrap();
    assert!(!m.result.without_escape_codes().starts_with("./"));
    assert_eq!(m.original, "./x");
}

#[test]
fn test_anchored_match_helps_path_components() {
    // the query aligns with a later path component; the anchored match keeps
    // the unmatched head in the annotated text
    let m = SpacedFilter::matched("foo", "bar/foo/baz").unwrap();
    assert_eq!(m.result.without_escape_codes(), "bar/foo/baz");
    // its weight components come from the anchored tail, which starts at
    // the matched component
    assert_eq!(m.score, 30);
}
