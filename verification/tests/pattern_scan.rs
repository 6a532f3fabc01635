use smug::pattern::{Anchor, Pattern};
use smug::Error;

fn toks(s: &str) -> Vec<Vec<u8>> {
    s.split_whitespace().map(|t| t.as_bytes().to_vec()).collect()
}

const HELLO_PATTERN: &str = "48 65 6C 6C 6F ?? 20 ?? ?? 72 6C 64 ??";

#[test]
fn pattern_decomposes_into_anchors() {
    let p = Pattern::parse_scored_anchors(&toks(HELLO_PATTERN)).unwrap();
    assert_eq!(p.anchors.len(), 3);
    assert_eq!(p.anchors[0].offset, 0);
    assert_eq!(p.anchors[0].bytes, b"Hello".to_vec());
    assert_eq!(p.anchors[1].offset, 6);
    assert_eq!(p.anchors[1].bytes, b" ".to_vec());
    assert_eq!(p.anchors[2].offset, 9);
    assert_eq!(p.anchors[2].bytes, b"rld".to_vec());
    // the search anchor is the highest-scoring one: the longest,
    // most diverse run
    assert_eq!(p.best, 0);
    assert_eq!(p.get_best().bytes, b"Hello".to_vec());
}

#[test]
fn pattern_grammar_errors() {
    assert!(matches!(
        Pattern::parse_scored_anchors(&toks("?? ?? ??")),
        Err(Error::AllWildcardPattern)
    ));
    assert!(matches!(
        Pattern::parse_scored_anchors(&Vec::new()),
        Err(Error::AllWildcardPattern)
    ));
    assert!(matches!(
        Pattern::parse_scored_anchors(&toks("48 GG 6C")),
        Err(Error::InvalidPatternByte { index: 1 })
    ));
    assert!(matches!(
        Pattern::parse_scored_anchors(&toks("48 6 6C")),
        Err(Error::InvalidPatternByte { index: 1 })
    ));
}

#[test]
fn finds_hello_world_at_offset() {
    let p = Pattern::parse_scored_anchors(&toks(HELLO_PATTERN)).unwrap();
    let k = 7;
    let mut buf = vec![0u8; k];
    buf.extend_from_slice(b"Hello, World!");
    buf.extend_from_slice(&[0, 0, 0]);
    let hits = p.find_matches(&buf);
    assert_eq!(hits, vec![k]);
}

#[test]
fn altered_covered_byte_misses() {
    let p = Pattern::parse_scored_anchors(&toks(HELLO_PATTERN)).unwrap();
    let mut buf = b"Hello, World!".to_vec();
    // alter a covered (non-wildcard) position: the 'r' of "rld"
    buf[9] = b'R';
    assert!(p.find_matches(&buf).is_empty());
    // altering a wildcard position still matches
    let mut buf2 = b"Hello, World!".to_vec();
    buf2[5] = b'#';
    assert_eq!(p.find_matches(&buf2), vec![0]);
}

#[test]
fn match_at_buffer_start_and_repeats() {
    let p = Pattern::parse_scored_anchors(&toks("41 ?? 43")).unwrap();
    let hits = p.find_matches(b"AxCyAzC");
    assert_eq!(hits, vec![0, 4]);
}

#[test]
fn anchor_requires_bytes() {
    assert!(Anchor::new(0, Vec::new()).is_none());
    let a = Anchor::new(3, vec![1, 2]).unwrap();
    assert_eq!(a.offset, 3);
    assert_eq!(a.bytes, vec![1, 2]);
}

#[test]
fn scoring_prefers_diverse_anchors() {
    // an identical-byte anchor scores strictly below a high-entropy
    // anchor of the same length
    let same = Anchor::new(0, vec![0xaa; 8]).unwrap();
    let diverse = Anchor::new(0, vec![1, 2, 3, 4, 5, 6, 7, 8]).unwrap();
    let s1 = same.score().unwrap();
    let s2 = diverse.score().unwrap();
    assert!(s1 < s2);
    // deterministic: the same bytes always score the same
    assert_eq!(same.score().unwrap(), s1);
}

#[test]
fn search_drives_on_highest_score() {
    // "AAAA" is longer, but "Q7" is more diverse per byte; either way
    // the chosen anchor never changes what matches
    let p = Pattern::parse_scored_anchors(&toks("AA AA AA AA ?? 51 37")).unwrap();
    let hits = p.find_matches(b"..\xAA\xAA\xAA\xAA.Q7..");
    assert_eq!(hits, vec![2]);
}

#[test]
fn counter_overflow_is_an_error() {
    // a run long enough that one byte value occurs more often than a
    // counter holds is reported, not aborted on
    let huge = Anchor::new(0, vec![7u8; 70_000]).unwrap();
    assert!(matches!(huge.score(), Err(Error::AnchorCounterOverflow)));
    let tokens: Vec<Vec<u8>> = std::iter::repeat(b"aa".to_vec()).take(70_000).collect();
    assert!(matches!(
        Pattern::parse_scored_anchors(&tokens),
        Err(Error::AnchorCounterOverflow)
    ));
    // within the counter range, long identical runs still score
    let ok = Anchor::new(0, vec![7u8; 60_000]).unwrap();
    assert!(ok.score().is_ok());
}
