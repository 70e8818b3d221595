use aho_corasick::{AhoCorasick, Match};

/// Every occurrence of every pattern, by brute force, sorted by (end, start,
/// pattern id).
fn brute_force(pats: &[&[u8]], text: &[u8]) -> Vec<(usize, usize, usize)> {
    let mut v = Vec::new();
    for (pid, p) in pats.iter().enumerate() {
        for end in 0..=text.len() {
            if p.len() <= end && &text[end - p.len()..end] == *p {
                v.push((end, end - p.len(), pid));
            }
        }
    }
    v.sort();
    v
}

fn reported(ac: &AhoCorasick, text: &[u8]) -> Vec<(usize, usize, usize)> {
    let mut v: Vec<_> = ac.find_all(text).iter().map(|m| (m.end, m.start, m.pattern_id)).collect();
    v.sort();
    v
}

fn check_laws(pats: &[&[u8]], text: &[u8]) {
    let ac = AhoCorasick::from_bytes(pats);
    let all = ac.find_all(text);
    // each reported match is an occurrence, and every occurrence is reported
    assert_eq!(reported(&ac, text), brute_force(pats, text));
    // reported once each
    let mut seen = reported(&ac, text);
    seen.dedup();
    assert_eq!(seen.len(), all.len());
    // by end position
    for w in all.windows(2) {
        assert!(w[0].end <= w[1].end);
    }
    // count and contains agree with the matches
    assert_eq!(ac.count(text), all.len());
    assert_eq!(ac.contains(text), !all.is_empty());
    for m in &all {
        assert_eq!(&text[m.start..m.end], pats[m.pattern_id]);
    }
}

#[test]
fn laws_hold_on_samples() {
    check_laws(&[b"he", b"she", b"his", b"hers"], b"ahishers ushers his sheep");
    check_laws(&[b"a", b"aa", b"aaa"], b"aaaaaa");
    check_laws(&[b"abc", b"bc", b"c", b"abcd"], b"xabcdabcabc");
    check_laws(&[b"an", b"ban", b"nana"], b"bananabanana");
    check_laws(&[b"", b"x"], b"xyx");
    check_laws(&[b""], b"");
    check_laws(&[b"q", b"q"], b"qq");
    check_laws(&[], b"anything");
    check_laws(&[b"\x00\x01", b"\xff\xfe", b"\xff"], &[0x00, 0x01, 0xff, 0xfe, 0xff]);
}

#[test]
fn exact_order_ahishers() {
    let ac = AhoCorasick::new(&["he", "she", "his", "hers"]);
    let m = ac.find_all(b"ahishers");
    assert_eq!(
        m,
        vec![
            Match { pattern_id: 2, start: 1, end: 4 },
            Match { pattern_id: 1, start: 3, end: 6 },
            Match { pattern_id: 0, start: 4, end: 6 },
            Match { pattern_id: 3, start: 4, end: 8 },
        ]
    );
}

#[test]
fn longest_first_at_one_end() {
    let ac = AhoCorasick::new(&["c", "abc", "bc"]);
    let m = ac.find_all(b"abc");
    assert_eq!(
        m,
        vec![
            Match { pattern_id: 1, start: 0, end: 3 },
            Match { pattern_id: 2, start: 1, end: 3 },
            Match { pattern_id: 0, start: 2, end: 3 },
        ]
    );
}

#[test]
fn empty_pattern_matches_at_every_offset() {
    let ac = AhoCorasick::new(&[""]);
    assert_eq!(
        ac.find_all(b"ab"),
        vec![
            Match { pattern_id: 0, start: 0, end: 0 },
            Match { pattern_id: 0, start: 1, end: 1 },
            Match { pattern_id: 0, start: 2, end: 2 },
        ]
    );
    assert_eq!(ac.find_all(b""), vec![Match { pattern_id: 0, start: 0, end: 0 }]);
    assert!(ac.contains(b""));
    assert!(ac.contains(b"z"));
    assert_eq!(ac.count(b""), 1);
    assert_eq!(ac.count(b"ab"), 3);
    assert_eq!(ac.num_states(), 1);
}

#[test]
fn empty_pattern_among_others() {
    let ac = AhoCorasick::new(&["a", ""]);
    assert_eq!(
        ac.find_all(b"a"),
        vec![
            Match { pattern_id: 1, start: 0, end: 0 },
            Match { pattern_id: 0, start: 0, end: 1 },
            Match { pattern_id: 1, start: 1, end: 1 },
        ]
    );
}

#[test]
fn reordering_renames_ids() {
    let pats: [&[u8]; 3] = [b"he", b"she", b"hers"];
    let perm = [2usize, 0, 1];
    let pats2: Vec<&[u8]> = perm.iter().map(|&j| pats[j]).collect();
    let text = b"ushers and she";
    let a = AhoCorasick::from_bytes(&pats);
    let b = AhoCorasick::from_bytes(&pats2);
    let mut renamed: Vec<(usize, usize, usize)> =
        b.find_all(text).iter().map(|m| (perm[m.pattern_id], m.start, m.end)).collect();
    let mut direct: Vec<(usize, usize, usize)> =
        a.find_all(text).iter().map(|m| (m.pattern_id, m.start, m.end)).collect();
    renamed.sort();
    direct.sort();
    assert_eq!(renamed, direct);
}

#[test]
fn appending_keeps_other_matches() {
    let a = AhoCorasick::new(&["ab", "b"]);
    let b = AhoCorasick::new(&["ab", "b", "abab"]);
    let text = b"ababab";
    let kept: Vec<Match> = b.find_all(text).into_iter().filter(|m| m.pattern_id < 2).collect();
    assert_eq!(kept, a.find_all(text));
    assert_eq!(b.num_patterns(), 3);
}

#[test]
fn duplicate_patterns_both_reported() {
    let ac = AhoCorasick::new(&["a", "a"]);
    assert_eq!(
        ac.find_all(b"a"),
        vec![Match { pattern_id: 0, start: 0, end: 1 }, Match { pattern_id: 1, start: 0, end: 1 }]
    );
    assert_eq!(ac.num_states(), 2);
}

#[test]
fn contains_empty_text() {
    let ac = AhoCorasick::new(&["a"]);
    assert!(!ac.contains(b""));
    assert_eq!(ac.count(b""), 0);
}

#[test]
fn num_states_shared_prefixes() {
    let ac = AhoCorasick::new(&["he", "she", "his", "hers"]);
    // "", h, he, her, hers, hi, his, s, sh, she
    assert_eq!(ac.num_states(), 10);
    let big = AhoCorasick::new(&["hello", "world", "hell", "he", "she", "hers", "his", "him", "her"]);
    assert_eq!(big.num_patterns(), 9);
    assert_eq!(big.num_states(), 19);
    let empty = AhoCorasick::new(&[]);
    assert_eq!(empty.num_states(), 1);
    assert!(empty.find_all(b"anything").is_empty());
}

#[test]
fn binary_patterns() {
    let ac = AhoCorasick::from_bytes(&[b"\x00\x01", b"\xff\xfe"]);
    let m = ac.find_all(&[0x00, 0x01, 0xFF, 0xFE]);
    assert_eq!(
        m,
        vec![Match { pattern_id: 0, start: 0, end: 2 }, Match { pattern_id: 1, start: 2, end: 4 }]
    );
}

#[test]
fn utf8_patterns_match_their_bytes() {
    let ac = AhoCorasick::new(&["é", "ü"]);
    let text = "café über".as_bytes();
    let m = ac.find_all(text);
    assert_eq!(
        m,
        vec![Match { pattern_id: 0, start: 3, end: 5 }, Match { pattern_id: 1, start: 6, end: 8 }]
    );
}

#[test]
fn match_positions_recover_substrings() {
    let ac = AhoCorasick::new(&["cat", "dog", "bird"]);
    let text = b"the cat chased the bird near the dog";
    let matches = ac.find_all(text);
    assert_eq!(&text[matches[0].start..matches[0].end], b"cat");
    assert_eq!(&text[matches[1].start..matches[1].end], b"bird");
    assert_eq!(&text[matches[2].start..matches[2].end], b"dog");
}

#[test]
fn keyword_checks() {
    let ac = AhoCorasick::new(&["error", "warning", "fatal"]);
    assert!(!ac.contains(b"2025-01-15 ERROR: connection timeout"));
    assert_eq!(ac.count(b"warning: low disk; error: file not found; fatal: out of memory"), 3);
    assert!(!ac.contains(b"2025-01-15 INFO: startup complete"));
}

#[test]
fn file_signatures() {
    let ac = AhoCorasick::from_bytes(&[b"\x89PNG\r\n\x1a\n", b"\xFF\xD8\xFF", b"GIF89a"]);
    let mut data = b"\x89PNG\r\n\x1a\n".to_vec();
    data.extend_from_slice(b"...image data...");
    data.extend_from_slice(b"\xFF\xD8\xFF");
    data.extend_from_slice(b"...more data...");
    let matches = ac.find_all(&data);
    assert_eq!(matches.len(), 2);
    assert_eq!((matches[0].pattern_id, matches[0].start), (0, 0));
    assert_eq!((matches[1].pattern_id, matches[1].start), (1, 24));
}

#[test]
fn blocklist_filter() {
    let blocked = AhoCorasick::new(&["spam", "scam", "phishing", "malware", "exploit"]);
    let messages = [
        "Hello, how are you today?",
        "Click here for a free prize — this is not spam!",
        "Your account has a phishing alert — verify now",
        "The quarterly report is ready for review",
    ];
    let flags: Vec<bool> = messages.iter().map(|m| blocked.contains(m.as_bytes())).collect();
    assert_eq!(flags, vec![false, true, true, false]);
    let total: usize = messages.iter().map(|m| blocked.count(m.as_bytes())).sum();
    assert_eq!(total, 2);
}

#[test]
fn new_and_from_bytes_agree() {
    let a = AhoCorasick::new(&["ab", "b", "abc"]);
    let b = AhoCorasick::from_bytes(&[b"ab", b"b", b"abc"]);
    let text = b"zabcabz";
    assert_eq!(a.find_all(text), b.find_all(text));
    assert_eq!(a.num_states(), b.num_states());
}
