use speller::count_words;
use speller::get_words;
use speller::parse_line;
use speller::WordCounts;

#[test]
fn parse_empty_test() {
    assert_eq!(Vec::<String>::new(), parse_line(""));
    assert_eq!(Vec::<String>::new(), parse_line(" \n \t"));
}

#[test]
fn parse_whitespace_test() {
    assert_eq!(
        vec!["hello".to_string(), "world".to_string(), "wow".to_string()],
        parse_line(" hello world\twow ")
    );
}

#[test]
fn parse_punctuation_test() {
    assert_eq!(
        vec![
            "hello".to_string(),
            "world".to_string(),
            "It's".to_string(),
            "me".to_string()
        ],
        parse_line(" hello, world! \tIt's me! ")
    );
}

#[test]
fn empty_line_test() {
    let expected: Vec<String> = vec![];
    assert_eq!(expected, get_words(vec![]));
}

#[test]
fn whitespace_line_test() {
    let expected: Vec<String> = vec![];
    assert_eq!(expected, get_words(vec![" \t \n ".to_string()]));
}

#[test]
fn one_line_test() {
    assert_eq!(
        vec!["hello".to_string(), "world".to_string()],
        get_words(vec!["hello world!".to_string()])
    );
}

#[test]
fn multi_line_test() {
    assert_eq!(
        vec![
            "hello".to_string(),
            "world".to_string(),
            "It's".to_string(),
            "me".to_string(),
            "Mario".to_string()
        ],
        get_words(vec![
            "hello world!".to_string(),
            "It's me Mario!!!!".to_string()
        ])
    );
}

#[test]
fn empty_words_test() {
    let words = vec![];
    let expected = WordCounts::new();
    assert_eq!(expected, count_words(words));
}

#[test]
fn test_unique() {
    let words = vec![
        "hello".to_string(),
        "world".to_string(),
        "It's".to_string(),
        "me".to_string(),
        "Mario".to_string(),
    ];
    let mut expected = WordCounts::new();

    expected.insert("hello".to_string(), 1);
    expected.insert("world".to_string(), 1);
    expected.insert("it's".to_string(), 1);
    expected.insert("me".to_string(), 1);
    expected.insert("mario".to_string(), 1);

    assert_eq!(expected, count_words(words));
}

#[test]
fn test_duplicates() {
    let words = vec![
        "hello".to_string(),
        "world".to_string(),
        "It's".to_string(),
        "me".to_string(),
        "Mario".to_string(),
        "hello".to_string(),
        "world".to_string(),
        "It's".to_string(),
        "me".to_string(),
        "Mario".to_string(),
    ];
    let mut expected = WordCounts::new();

    expected.insert("hello".to_string(), 2);
    expected.insert("world".to_string(), 2);
    expected.insert("it's".to_string(), 2);
    expected.insert("me".to_string(), 2);
    expected.insert("mario".to_string(), 2);

    assert_eq!(expected, count_words(words));
}
