use ncount::split_words::SplitWords;

// Real text from a novel: one of only two paragraphs in the first scene containing an mdash.
static TEXT: &str = "Though the island was without paths, Grier tried never to follow the \
    same path twice. Breathless, she paused for an moment on an outcrop of bald stone at the \
    brow of a hill. Warmed by her run, she pulled off her hoodie and tied it around her waist, \
    and she took another instant to get her bearings. There: the dead tree she had passed \
    yesterday--a wizened hulk, stripped of bark and gray with age--waited there, pointing to \
    the right. She had gone left yesterday.";

static TEXT_WITH_ABBREVIATION: &str = "Don't look now, but this may break.";

#[test]
fn split_words_count_is_correct() {
    let count = TEXT.split_words().count();

    // Expected count provided by Word.
    assert_eq!(86, count);
}

#[test]
fn split_words_abbreviations_are_counted_correctly() {
    let count = TEXT_WITH_ABBREVIATION.split_words().count();
    assert_eq!(7, count);
}

#[test]
fn split_words_coffee_case() {
    let text = r#""I looked at the schedule, you know," she said on their way back from the university. "We can stop at this cafe, have a snack, and take the next bus at 3:45.""#;
    let count = text.split_words().count();
    assert_eq!(32, count);
}

#[test]
fn split_words_hands_out_words_in_order() {
    let mut words = "Don't--stop at 3:45!".split_words();
    assert_eq!(Some("Don't".to_string()), words.next());
    assert_eq!(Some("stop".to_string()), words.next());
    assert_eq!(Some("at".to_string()), words.next());
    assert_eq!(Some("3:45".to_string()), words.next());
    assert_eq!(None, words.next());
    assert_eq!(None, words.next());
}

#[test]
fn split_words_of_punctuation_only_is_empty() {
    assert_eq!(0, "-- ... !?".split_words().count());
    assert_eq!(0, "".split_words().count());
}
