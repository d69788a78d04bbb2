//! The spellings of a name.

use registry_index::spelling::UncanonicalizedIter;

fn collect(input: &str, most: usize) -> Vec<String> {
    let mut iter = UncanonicalizedIter::new(input);
    let mut out = Vec::new();
    while out.len() < most {
        match iter.next() {
            Some(s) => out.push(s),
            None => break,
        }
    }
    out
}

#[test]
fn no_hyphen() {
    assert_eq!(collect("test", usize::MAX), vec!["test".to_string()])
}

#[test]
fn two_hyphen() {
    assert_eq!(
        collect("te-_st", usize::MAX),
        vec![
            "te-_st".to_string(),
            "te__st".to_string(),
            "te--st".to_string(),
            "te_-st".to_string()
        ]
    )
}

#[test]
fn overflow_hyphen() {
    assert_eq!(collect("te-_-_-_-_-_-_-_-_-st", 100).len(), 100)
}

#[test]
fn an_empty_name_has_one_spelling() {
    assert_eq!(collect("", usize::MAX), vec!["".to_string()]);
}

#[test]
fn the_given_spelling_comes_first() {
    assert_eq!(collect("a_b-c_d", 1), vec!["a_b-c_d".to_string()]);
}

#[test]
fn spellings_differ_and_keep_the_name() {
    let all = collect("a_b-c_d-e", usize::MAX);
    assert_eq!(all.len(), 16);
    for (i, s) in all.iter().enumerate() {
        assert_eq!(s.replace('_', "-"), "a-b-c-d-e");
        for t in &all[..i] {
            assert_ne!(s, t);
        }
    }
    assert!(all.contains(&"a-b-c-d-e".to_string()));
    assert!(all.contains(&"a_b_c_d_e".to_string()));
}

#[test]
fn letters_outside_ascii_are_kept() {
    assert_eq!(
        collect("h\u{e9}-l", usize::MAX),
        vec!["h\u{e9}-l".to_string(), "h\u{e9}_l".to_string()]
    );
}

#[test]
fn only_the_first_sixteen_separators_are_switched() {
    let input = "-".repeat(18);
    let all = collect(&input, 40000);
    assert_eq!(all.len(), 40000);
    for s in &all {
        assert!(s.ends_with("--"));
    }
    assert_eq!(all[1], format!("_{}", "-".repeat(17)));
    assert_eq!(all[32768], format!("{}_--", "-".repeat(15)));
}

#[test]
fn positions_are_counted() {
    let mut iter = UncanonicalizedIter::new("a-b");
    assert_eq!(iter.handed_out(), 0);
    iter.next();
    assert_eq!(iter.handed_out(), 1);
    iter.next();
    assert_eq!(iter.next(), None);
    assert_eq!(iter.handed_out(), 2);
}
