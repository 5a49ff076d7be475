use ncount::collector::filter::{contains_case_insensitive, decide_match, HeadingFilter};
use ncount::collector::heading::Heading;
use ncount::document::{Document, DocumentBuilder};
use ncount::markup::filter_comments;
use ncount::words::word_count;
use ncount::{Application, Args, DocumentStats, Stats};

fn levels(document: &DocumentStats) -> Vec<u32> {
    document.sections().iter().map(|s| s.level()).collect()
}

fn headings(document: &DocumentStats) -> Vec<Option<String>> {
    document
        .sections()
        .iter()
        .map(|s| s.heading().map(|h| h.to_string()))
        .collect()
}

#[test]
fn plain_text_counts_whitespace_tokens() {
    assert_eq!(4, word_count("alpha beta\tgamma  42"));
    assert_eq!(3, word_count("  one two three  "));
}

#[test]
fn empty_and_blank_text_has_no_words() {
    assert_eq!(0, word_count(""));
    assert_eq!(0, word_count(" \t  "));
}

#[test]
fn tokenizer_keeps_contractions_times_and_hyphens() {
    assert_eq!(1, word_count("don't"));
    assert_eq!(1, word_count("3:45"));
    assert_eq!(2, word_count("wizened---hulk"));
    assert_eq!(1, word_count("---what?!"));
    assert_eq!(1, word_count("well-known"));
    assert_eq!(1, word_count("yesterday--a"));
    assert_eq!(0, word_count("\" --- \""));
    assert_eq!(3, word_count("a---b---c"));
}

#[test]
fn comment_spanning_lines_is_removed() {
    assert_eq!("a  d", filter_comments("a <!-- b\nc --> d"));
}

#[test]
fn notes_and_footnotes_are_removed() {
    assert_eq!("x  y", filter_comments("x <note to self> y"));
    assert_eq!("See this.\n", filter_comments("See this[^1].\n[^1]: The note."));
    assert_eq!("keep ", filter_comments("keep <!-- never closed"));
    assert_eq!("open ", filter_comments("open <note forever"));
    assert_eq!("[^] stays", filter_comments("[^] stays"));
}

#[test]
fn heading_is_parsed() {
    let h = Heading::from_str("## The *Big* _Day_  ");
    assert_eq!(2, h.level);
    assert_eq!("The Big Day", h.text);
    let h = Heading::from_str("#");
    assert_eq!(1, h.level);
    assert_eq!("", h.text);
}

#[test]
fn stats_push_and_average() {
    let mut s = Stats::new();
    assert!(s.is_empty());
    assert_eq!(0, s.average_paragraph());
    s.push(3);
    s.push(8);
    assert_eq!(11, s.word_count);
    assert_eq!(2, s.paragraph_count);
    assert_eq!(8, s.longest_paragraph);
    assert_eq!(5, s.average_paragraph());
    assert!(!s.is_empty());
    let t = s.combine(&Stats { word_count: 10, paragraph_count: 1, longest_paragraph: 10 });
    assert_eq!(21, t.word_count);
    assert_eq!(3, t.paragraph_count);
    assert_eq!(10, t.longest_paragraph);
}

#[test]
fn level_jump_synthesizes_placeholders() {
    let mut document = DocumentStats::new();
    document.apply_str("doc", "# One\n#### Four\nfour words are here");
    assert_eq!(vec![1, 2, 3, 4], levels(&document));
    assert_eq!(
        vec![Some("One".to_string()), None, None, Some("Four".to_string())],
        headings(&document)
    );
    let sections = document.sections();
    assert_eq!(0, sections[1].paragraphs().word_count);
    assert_eq!(0, sections[2].paragraphs().paragraph_count);
    assert_eq!(4, sections[3].paragraphs().word_count);
}

fn two_sections() -> DocumentStats {
    let mut document = DocumentStats::new();
    document.apply_str(
        "doc",
        "# A\none two three\n\n# B\none two three four five\n\none two three four five six seven\n",
    );
    document
}

#[test]
fn end_to_end_totals_and_filter() {
    let mut document = two_sections();
    let all = document.overall_stats();
    assert_eq!(15, all.word_count);
    assert_eq!(3, all.paragraph_count);
    assert_eq!(7, all.longest_paragraph);

    document.filter_by_heading("B");
    let b = document.overall_stats();
    assert_eq!(12, b.word_count);
    assert_eq!(2, b.paragraph_count);
    assert_eq!(7, b.longest_paragraph);
}

#[test]
fn filtered_view_leaves_the_tree_unchanged() {
    let document = two_sections();
    let view = document.filtered_view("b");
    assert_eq!(12, view.overall_stats().word_count);
    assert_eq!(15, document.overall_stats().word_count);
}

#[test]
fn filter_keeps_descendants_and_zeroes_ancestors() {
    let mut document = DocumentStats::new();
    document.apply_str(
        "doc",
        "# Part\nintro words\n## Chapter Target\nbody of it\n### Scene\nscene text here\n## Other\nskip me\n",
    );
    let all = document.overall_stats();
    assert_eq!(10, all.word_count);
    let view = document.filtered_view("target");
    assert_eq!(vec![1, 2, 3], levels(&view));
    let sections = view.sections();
    assert_eq!(0, sections[0].paragraphs().word_count);
    assert_eq!(Some("Part"), sections[0].heading());
    assert_eq!(3, sections[1].paragraphs().word_count);
    assert_eq!(3, sections[2].paragraphs().word_count);
    let stats = view.overall_stats();
    assert_eq!(6, stats.word_count);
    assert_eq!(2, stats.paragraph_count);
    assert_eq!(3, stats.longest_paragraph);
}

#[test]
fn filter_without_match_is_empty() {
    let document = two_sections();
    let view = document.filtered_view("nothing here");
    assert!(view.sections().is_empty());
    assert_eq!(0, view.overall_stats().word_count);
}

#[test]
fn invalid_regex_falls_back_to_substring() {
    let mut document = DocumentStats::new();
    document.apply_str("doc", "# Notes (draft\nsome draft words\n# Final\nfinal words\n");
    let view = document.filtered_view("(DRAFT");
    assert_eq!(3, view.overall_stats().word_count);
    assert_eq!(1, view.sections().len());
}

#[test]
fn heading_filter_matches_regex_and_text() {
    assert!(HeadingFilter::new("^ch.*1$").is_match("Chapter 1"));
    assert!(!HeadingFilter::new("^ch.*1$").is_match("Chapter 2"));
    assert!(HeadingFilter::new("[unclosed").is_match("An [UNCLOSED bracket"));
    assert!(!HeadingFilter::new("[unclosed").is_match("unclosed"));
    assert!(decide_match(Some(true), "x", "y"));
    assert!(!decide_match(Some(false), "x", "x"));
    assert!(decide_match(None, "AbC", "xxabcxx"));
    assert!(contains_case_insensitive("Hello World", "WORLD"));
    assert!(!contains_case_insensitive("Hello", "Help"));
    assert!(contains_case_insensitive("anything", ""));
}

#[test]
fn text_before_first_heading_goes_under_document_name() {
    let mut document = DocumentStats::new();
    document.apply_str("intro.md", "lead words here\n# Title\nbody\n");
    assert_eq!(
        vec![Some("intro.md".to_string()), Some("Title".to_string())],
        headings(&document)
    );
    assert_eq!(3, document.sections()[0].paragraphs().word_count);
    assert_eq!(vec![1, 1], levels(&document));
}

#[test]
fn document_without_heading_is_named_after_its_source() {
    let mut document = DocumentStats::new();
    document.apply_str("a.txt", "first doc\n");
    document.apply_str("b.txt", "");
    assert_eq!(
        vec![Some("a.txt".to_string()), Some("b.txt".to_string())],
        headings(&document)
    );
    assert_eq!(2, document.overall_stats().word_count);
}

#[test]
fn skipped_lines_do_not_count() {
    let mut document = DocumentStats::new();
    document.apply_str("x", "# H\n   \n[^ not counted\n[^1]: a definition\n--- ...\nthree words here\n");
    let s = document.overall_stats();
    assert_eq!(3, s.word_count);
    assert_eq!(1, s.paragraph_count);
}

#[test]
fn applying_twice_is_deterministic() {
    let text = "pre\n# A\nx y\n### C\nz\n<!-- gone -->\n## D\nw w w";
    let mut first = DocumentStats::new();
    let mut second = DocumentStats::new();
    first.apply_str("f", text);
    second.apply_str("f", text);
    assert_eq!(levels(&first), levels(&second));
    assert_eq!(headings(&first), headings(&second));
    let a: Vec<Stats> = first.sections().iter().map(|s| s.paragraphs()).collect();
    let b: Vec<Stats> = second.sections().iter().map(|s| s.paragraphs()).collect();
    assert_eq!(a, b);
    assert_eq!(first.overall_stats(), second.overall_stats());
}

#[test]
fn builder_finalizes_the_tree() {
    let mut builder = DocumentBuilder::new();
    assert!(builder.has_room_for("# T\ntext"));
    builder.apply("n", "# T\nsome text");
    builder.apply("m", "## U\nmore");
    let document: Document = builder.finalize();
    let levels: Vec<u32> = document.iter().iter().map(|s| s.level()).collect();
    assert_eq!(vec![1, 1, 2], levels);
    assert_eq!(3, document.overall_stats().word_count);
    let kept = document.retain_matches(&vec![false, false, true]);
    assert_eq!(1, kept.overall_stats().word_count);
    assert_eq!(2, kept.iter().len());
    assert_eq!(None, kept.iter()[0].heading());
    assert_eq!(0, kept.iter()[0].paragraphs().word_count);
    let kept = document.retain_matches(&vec![true, false, false]);
    assert_eq!(2, kept.overall_stats().word_count);
    assert_eq!(1, kept.iter().len());
}

#[test]
fn application_starts_empty() {
    let app = Application::new(Args { paths: vec![".".to_string()], verbose: true, filter: None });
    assert!(app.options.verbose);
    assert!(app.document.sections().is_empty());
    assert!(app.document.has_room_for("some text"));
}

#[test]
fn each_document_starts_at_the_root() {
    let mut document = DocumentStats::new();
    document.apply_str("one.md", "# Ch1\nfirst chapter words\n");
    document.apply_str("two.md", "## Sec\nsecond file\n");
    assert_eq!(vec![1, 1, 2], levels(&document));
    assert_eq!(
        vec![Some("Ch1".to_string()), None, Some("Sec".to_string())],
        headings(&document)
    );
    let view = document.filtered_view("Ch1");
    assert_eq!(3, view.overall_stats().word_count);
    assert_eq!(1, view.sections().len());
}

#[test]
fn headings_deepen_within_one_document() {
    let mut document = DocumentStats::new();
    document.apply_str("a.md", "lead text\n## Sec\nx\n### Sub\ny\n");
    assert_eq!(vec![1, 1, 2, 3], levels(&document));
    assert_eq!(
        vec![
            Some("a.md".to_string()),
            None,
            Some("Sec".to_string()),
            Some("Sub".to_string())
        ],
        headings(&document)
    );
}

fn built(text: &str) -> Document {
    let mut builder = DocumentBuilder::new();
    builder.apply("doc", text);
    builder.finalize()
}

fn outline(document: &Document) -> Vec<(u32, Option<String>)> {
    document
        .iter()
        .iter()
        .map(|s| (s.level(), s.heading().map(|h| h.to_string())))
        .collect()
}

#[test]
fn get_heading_prefers_direct_children() {
    let document = built("# A\n## Target deep\n# Target top\n");
    let found = document.get_heading("TARGET").unwrap();
    assert_eq!(vec![(1, Some("Target top".to_string()))], outline(&found));
}

#[test]
fn get_heading_searches_subtrees_in_order() {
    let document = built("# A\n## B\n### Bx one\n# C\n## Bx two\n");
    let found = document.get_heading("BX").unwrap();
    assert_eq!(vec![(1, Some("Bx one".to_string()))], outline(&found));
}

#[test]
fn get_heading_returns_the_lifted_subtree() {
    let document = built("# Part\n## Chapter\nwords here\n### Scene\nmore\n# Other\nx\n");
    let found = document.get_heading("CHAP").unwrap();
    assert_eq!(
        vec![(1, Some("Chapter".to_string())), (2, Some("Scene".to_string()))],
        outline(&found)
    );
    assert_eq!(3, found.overall_stats().word_count);
    assert!(document.get_heading("chap").is_none());
    assert!(document.get_heading("MISSING").is_none());
}
