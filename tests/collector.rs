use ncount::{DocumentStats, Stats};

#[test]
fn count_handles_quotes_and_dashes() {
    let text = "---what?!";
    let mut document = DocumentStats::new();

    document.apply_str("Foo", text);

    let Stats {
        paragraph_count,
        word_count,
        ..
    } = document.overall_stats();

    assert_eq!(1, paragraph_count);
    assert_eq!(1, word_count);
}

#[test]
fn footnotes_are_not_counted() {
    let text = "Hello, world!\n\n\
        How are you?[^note]\n\n\
        [^note]: No one cares.";

    let mut document = DocumentStats::new();
    document.apply_str("foo.txt", text);
    let Stats { word_count, .. } = document.overall_stats();

    assert_eq!(5, word_count);
}
