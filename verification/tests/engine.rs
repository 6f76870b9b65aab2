use speller::candidates;
use speller::correction;
use speller::edits1;
use speller::WordCounts;

#[test]
fn edits_of_to_test() {
    let edits = edits1("to");
    assert!(edits.contains(&"t".to_string()));
    assert!(edits.contains(&"o".to_string()));
    assert!(edits.contains(&"ot".to_string()));
    for b in b'a'..=b'z' {
        let c = b as char;
        assert!(edits.contains(&format!("{}o", c)));
        assert!(edits.contains(&format!("t{}", c)));
        assert!(edits.contains(&format!("{}to", c)));
        assert!(edits.contains(&format!("t{}o", c)));
        assert!(edits.contains(&format!("to{}", c)));
    }
    for i in 0..edits.len() {
        let n = edits.get(i).chars().count();
        assert!(1 <= n && n <= 3);
    }
}

#[test]
fn edits_of_empty_test() {
    let edits = edits1("");
    assert_eq!(26, edits.len());
    for b in b'a'..=b'z' {
        let c = b as char;
        assert!(edits.contains(&format!("{}", c)));
    }
}

#[test]
fn known_word_candidates_test() {
    let mut counts = WordCounts::new();
    counts.insert("hello".to_string(), 1);
    counts.insert("world".to_string(), 1);
    let cands = candidates("hello".to_string(), &counts);
    assert_eq!(1, cands.len());
    assert!(cands.contains(&"hello".to_string()));
}

#[test]
fn known_word_unchanged_test() {
    let mut counts = WordCounts::new();
    counts.insert("hello".to_string(), 1);
    counts.insert("world".to_string(), 1);
    assert_eq!("hello", correction("hello", &counts));
}

#[test]
fn no_candidates_unchanged_test() {
    let counts = WordCounts::new();
    assert_eq!("anything", correction("anything", &counts));
}

#[test]
fn distance_two_test() {
    let mut counts = WordCounts::new();
    counts.insert("correct".to_string(), 1);
    assert_eq!("correct", correction("coect", &counts));
}

#[test]
fn highest_count_wins_test() {
    let mut counts = WordCounts::new();
    counts.insert("spell".to_string(), 1);
    counts.insert("speel".to_string(), 5);
    assert_eq!("speel", correction("spel", &counts));
}

#[test]
fn tie_breaks_lexicographically_test() {
    let mut counts = WordCounts::new();
    counts.insert("cat".to_string(), 1);
    counts.insert("car".to_string(), 1);
    assert_eq!("car", correction("caz", &counts));
}

#[test]
fn empty_word_test() {
    let counts = WordCounts::new();
    assert_eq!("", correction("", &counts));
}
