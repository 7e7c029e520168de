use li_domain_scanner::{generate_domains, generate_repeat_pattern_domains, is_valid_domain, scan_candidates};
use std::collections::HashSet;

fn distinct(v: &[String]) -> bool {
    let set: HashSet<&String> = v.iter().collect();
    set.len() == v.len()
}

#[test]
fn single_labels_letters_only() {
    let v = generate_domains(1, true);
    assert_eq!(v.len(), 26);
    assert!(v.iter().all(|s| !s.contains('-')));
    assert!(v.iter().all(|s| s.len() == 1 && s.chars().all(|c| c.is_ascii_lowercase())));
    assert!(distinct(&v));
}

#[test]
fn single_labels_with_digits() {
    let v = generate_domains(1, false);
    assert_eq!(v.len(), 36);
    assert!(v.iter().all(|s| !s.contains('-')));
    assert!(v.contains(&"7".to_string()));
    assert!(v.contains(&"z".to_string()));
    assert!(distinct(&v));
}

fn assert_well_formed(v: &[String], length: usize) {
    for s in v {
        assert_eq!(s.chars().count(), length);
        assert!(!s.starts_with('-'), "{}", s);
        assert!(!s.ends_with('-'), "{}", s);
        assert!(!s.contains("--"), "{}", s);
        assert!(is_valid_domain(s), "{}", s);
    }
    assert!(distinct(v));
}

#[test]
fn two_symbol_labels() {
    let v = generate_domains(2, true);
    assert_eq!(v.len(), 26 * 26);
    assert_well_formed(&v, 2);
    let w = generate_domains(2, false);
    assert_eq!(w.len(), 36 * 36);
    assert_well_formed(&w, 2);
}

#[test]
fn three_symbol_labels() {
    let v = generate_domains(3, true);
    assert_eq!(v.len(), 26 * 27 * 26);
    assert_well_formed(&v, 3);
    assert!(v.contains(&"a-b".to_string()));
    let w = generate_domains(3, false);
    assert_eq!(w.len(), 36 * 37 * 36);
    assert_well_formed(&w, 3);
}

#[test]
fn four_symbol_labels() {
    let v = generate_domains(4, true);
    assert_eq!(v.len(), 26 * 26 * (27 * 27 - 1));
    assert_well_formed(&v, 4);
    assert!(v.contains(&"a-bc".to_string()));
    assert!(!v.contains(&"a--b".to_string()));
}

#[test]
fn out_of_range_lengths_give_nothing() {
    assert!(generate_domains(0, true).is_empty());
    assert!(generate_domains(5, false).is_empty());
}

#[test]
fn repeat_pattern_counts() {
    let v = generate_repeat_pattern_domains(true);
    assert_eq!(v.len(), 26 + 4 * 26 * 25 + 3 * 26 * 25);
    assert!(distinct(&v));
    let w = generate_repeat_pattern_domains(false);
    assert_eq!(w.len(), 36 + 4 * 36 * 35 + 3 * 36 * 35);
    assert!(distinct(&w));
}

#[test]
fn repeat_pattern_shapes() {
    let v = generate_repeat_pattern_domains(true);
    for s in ["aaaa", "aaab", "aaba", "abaa", "baaa", "aabb", "abba", "abab", "zzzy"] {
        assert!(v.contains(&s.to_string()), "{}", s);
    }
    for s in ["abcd", "aabc", "a1a1", "aa-a"] {
        assert!(!v.contains(&s.to_string()), "{}", s);
    }
    for s in &v {
        let set: HashSet<char> = s.chars().collect();
        assert_eq!(s.len(), 4);
        assert!(set.len() <= 2);
    }
    let w = generate_repeat_pattern_domains(false);
    assert!(w.contains(&"a1a1".to_string()));
    assert!(w.contains(&"9999".to_string()));
}

#[test]
fn valid_domain_checks() {
    assert!(is_valid_domain("a"));
    assert!(is_valid_domain("a-b"));
    assert!(is_valid_domain("AB12"));
    assert!(!is_valid_domain(""));
    assert!(!is_valid_domain("abcde"));
    assert!(!is_valid_domain("-ab"));
    assert!(!is_valid_domain("ab-"));
    assert!(!is_valid_domain("a--b"));
    assert!(!is_valid_domain("a_b"));
    assert!(!is_valid_domain("é"));
}

#[test]
fn default_scan_plan() {
    let v = scan_candidates(false, true);
    assert_eq!(v.len(), 26 + 26 * 26 + 26 * 27 * 26 + (26 + 7 * 26 * 25));
    assert!(distinct(&v));
    assert!(v.contains(&"abab".to_string()));
    assert!(!v.contains(&"abcd".to_string()));
}

#[test]
fn full_scan_plan() {
    let v = scan_candidates(true, true);
    assert_eq!(v.len(), 26 + 26 * 26 + 26 * 27 * 26 + 26 * 26 * (27 * 27 - 1));
    assert!(v.contains(&"abcd".to_string()));
}
