use speller::correction;
use speller::known;
use speller::word_probability;
use speller::WordCounts;
use speller::WordSet;

#[test]
fn empty_test() {
    let counts = WordCounts::new();
    let (num, den) = word_probability("nope", &counts);
    assert_eq!(0., num as f64 / den as f64);
}

#[test]
fn zero_test() {
    let mut counts = WordCounts::new();
    counts.insert("hello".to_string(), 1);
    let (num, den) = word_probability("nope", &counts);
    assert_eq!(0., num as f64 / den as f64);
}

#[test]
fn pos_test() {
    let mut counts = WordCounts::new();
    counts.insert("hello".to_string(), 1);
    counts.insert("world".to_string(), 1);
    let (num, den) = word_probability("hello", &counts);
    assert_eq!(0.5, num as f64 / den as f64);
}

#[test]
fn no_known_test() {
    let mut counts = WordCounts::new();
    counts.insert("apples".to_string(), 1);
    counts.insert("bananas".to_string(), 1);
    counts.insert("cats".to_string(), 1);
    counts.insert("dogs".to_string(), 1);
    counts.insert("fish".to_string(), 1);
    let mut words = WordSet::new();
    words.insert("rust".to_string());
    words.insert("is".to_string());
    words.insert("hard".to_string());
    assert_eq!(WordSet::new(), known(&words, &counts));
}

#[test]
fn one_known_test() {
    let mut counts = WordCounts::new();
    counts.insert("apples".to_string(), 1);
    counts.insert("bananas".to_string(), 1);
    counts.insert("cats".to_string(), 1);
    counts.insert("dogs".to_string(), 1);
    counts.insert("fish".to_string(), 1);
    let mut words = WordSet::new();
    words.insert("rust".to_string());
    words.insert("is".to_string());
    words.insert("hard".to_string());
    words.insert("apples".to_string());

    let mut expected = WordSet::new();
    expected.insert("apples".to_string());

    assert_eq!(expected, known(&words, &counts));
}

#[test]
fn multiple_known_test() {
    let mut counts = WordCounts::new();
    counts.insert("apples".to_string(), 1);
    counts.insert("bananas".to_string(), 1);
    counts.insert("cats".to_string(), 1);
    counts.insert("dogs".to_string(), 1);
    counts.insert("fish".to_string(), 1);
    let mut words = WordSet::new();
    words.insert("rust".to_string());
    words.insert("is".to_string());
    words.insert("hard".to_string());
    words.insert("apples".to_string());
    words.insert("bananas".to_string());
    words.insert("cats".to_string());
    words.insert("dogs".to_string());
    words.insert("fish".to_string());

    let mut expected = WordSet::new();
    expected.insert("apples".to_string());
    expected.insert("bananas".to_string());
    expected.insert("cats".to_string());
    expected.insert("dogs".to_string());
    expected.insert("fish".to_string());

    assert_eq!(expected, known(&words, &counts));
}

#[test]
fn correct_test() {
    let mut corpus = WordCounts::new();
    corpus.insert("correct".to_string(), 1);
    let input = "corect";
    let output = correction(input, &corpus);
    assert_eq!("correct", output);
}
