use aho_corasick::{AhoCorasick, Match};

fn find_sorted(ac: &AhoCorasick, text: &[u8]) -> Vec<(usize, usize, usize)> {
    let mut v: Vec<_> =
        ac.find_all(text).into_iter().map(|m| (m.start, m.end, m.pattern_id)).collect();
    v.sort();
    v
}

// ── basic search ─────────────────────────────────────────────────────────

#[test]
fn classic_ahishers() {
    let ac = AhoCorasick::new(&["he", "she", "his", "hers"]);
    let matches = ac.find_all(b"ahishers");
    assert_eq!(matches.len(), 4);
}

#[test]
fn ahishers_positions() {
    let ac = AhoCorasick::new(&["he", "she", "his", "hers"]);
    let m = find_sorted(&ac, b"ahishers");
    // "his" at 1, "he" at 4, "she" at 3, "hers" at 4
    assert!(m.contains(&(1, 4, 2))); // "his"
    assert!(m.contains(&(3, 6, 1))); // "she"
    assert!(m.contains(&(4, 6, 0))); // "he"
    assert!(m.contains(&(4, 8, 3))); // "hers"
}

#[test]
fn no_match() {
    let ac = AhoCorasick::new(&["xyz", "foo"]);
    assert_eq!(ac.find_all(b"hello world"), vec![]);
}

#[test]
fn single_pattern() {
    let ac = AhoCorasick::new(&["ab"]);
    let m = ac.find_all(b"ababab");
    assert_eq!(m.len(), 3);
    assert_eq!(m[0].start, 0);
    assert_eq!(m[1].start, 2);
    assert_eq!(m[2].start, 4);
}

#[test]
fn overlapping_patterns() {
    let ac = AhoCorasick::new(&["aa", "aaa"]);
    let m = ac.find_all(b"aaaa");
    assert_eq!(ac.count(b"aaaa"), m.len());
    assert!(m.len() >= 3);
}

#[test]
fn pattern_is_prefix_of_another() {
    let ac = AhoCorasick::new(&["a", "ab", "abc"]);
    let m = ac.find_all(b"abc");
    assert_eq!(m.len(), 3);
}

#[test]
fn pattern_is_suffix_of_another() {
    let ac = AhoCorasick::new(&["abc", "bc", "c"]);
    let m = ac.find_all(b"abc");
    assert_eq!(m.len(), 3);
}

// ── empty and edge cases ─────────────────────────────────────────────────

#[test]
fn empty_text() {
    let ac = AhoCorasick::new(&["hello"]);
    assert_eq!(ac.find_all(b""), vec![]);
}

#[test]
fn empty_patterns_list() {
    let ac = AhoCorasick::new(&[]);
    assert_eq!(ac.find_all(b"hello"), vec![]);
    assert_eq!(ac.num_patterns(), 0);
}

#[test]
fn single_char_patterns() {
    let ac = AhoCorasick::new(&["a", "b", "c"]);
    let m = ac.find_all(b"abc");
    assert_eq!(m.len(), 3);
}

#[test]
fn repeated_pattern() {
    let ac = AhoCorasick::new(&["aa"]);
    let m = ac.find_all(b"aaaa");
    assert_eq!(m.len(), 3);
}

// ── contains / count ─────────────────────────────────────────────────────

#[test]
fn contains_true() {
    let ac = AhoCorasick::new(&["world"]);
    assert!(ac.contains(b"hello world"));
}

#[test]
fn contains_false() {
    let ac = AhoCorasick::new(&["xyz"]);
    assert!(!ac.contains(b"hello world"));
}

#[test]
fn count_multiple() {
    let ac = AhoCorasick::new(&["an", "ban"]);
    // "banana" → "an"@1, "ban"@0, "an"@3
    assert_eq!(ac.count(b"banana"), 3);
}

// ── metadata ─────────────────────────────────────────────────────────────

#[test]
fn num_patterns() {
    let ac = AhoCorasick::new(&["a", "bb", "ccc"]);
    assert_eq!(ac.num_patterns(), 3);
}

#[test]
fn num_states_single() {
    let ac = AhoCorasick::new(&["abc"]);
    assert_eq!(ac.num_states(), 4); // root + 3 nodes
}

// ── byte patterns ────────────────────────────────────────────────────────

#[test]
fn from_bytes() {
    let ac = AhoCorasick::from_bytes(&[b"foo", b"bar"]);
    assert_eq!(ac.count(b"foobar"), 2);
}

#[test]
fn find_all_returns_correct_span() {
    let ac = AhoCorasick::new(&["cat"]);
    let m = ac.find_all(b"concatenate");
    assert!(!m.is_empty());
    let first = &m[0];
    assert_eq!(&b"concatenate"[first.start..first.end], b"cat");
}

#[test]
fn long_text_single_pattern() {
    let ac = AhoCorasick::new(&["ab"]);
    let text = b"abababababababab";
    assert_eq!(ac.count(text), 8);
}

#[test]
fn pattern_id_ordering() {
    let ac = AhoCorasick::new(&["z", "y", "x"]);
    let m = ac.find_all(b"xyz");
    // x→pid2, y→pid1, z→pid0
    let ids: Vec<usize> = m.iter().map(|m| m.pattern_id).collect();
    assert!(ids.contains(&0));
    assert!(ids.contains(&1));
    assert!(ids.contains(&2));
}

#[test]
fn match_value_is_plain_data() {
    let m = Match { pattern_id: 1, start: 2, end: 5 };
    let n = m;
    assert_eq!(m, n);
}
