use site::date::Date;
use site::document::{
    parse_blog, load_documents, new_state, sort_documents, find_by_url, tagged_indices,
    visible_indices, count_words, BlogPost, SourceFile, SkipReason, IngestError,
};
use site::frontmatter::HeaderFault;

fn file(name: &str, text: &str) -> SourceFile {
    SourceFile { name: name.to_string(), text: text.to_string() }
}

fn post_text(title: &str, date: &str, archived: bool, tags: &str, body: &str) -> String {
    format!(
        "---\ntitle: {}\ndate: {}\narchived: {}\ntags: {}\n---\n\n{}",
        title, date, archived, tags, body
    )
}

#[test]
fn parse_blog_builds_a_document() {
    let text = post_text("Hello", "05-03-2023", false, "[a, b]", "Some body text");
    let p = parse_blog("hello", &text).expect("should parse");
    assert_eq!(p.url, "hello");
    assert_eq!(p.title, "Hello");
    assert_eq!(p.date, Date { day: 5, month: 3, year: 2023 });
    assert!(!p.archived);
    assert_eq!(p.tags, vec!["a".to_string(), "b".to_string()]);
    assert_eq!(p.estimated_read_time, 0);
}

#[test]
fn parse_blog_missing_delimiter_is_malformed_header() {
    let r = parse_blog("x", "title: T\nno markers");
    assert_eq!(r.unwrap_err(), IngestError::MalformedHeader);
}

#[test]
fn parse_blog_bad_date_is_invalid_date() {
    let text = post_text("T", "03/05/2023", false, "[]", "body");
    assert_eq!(parse_blog("x", &text).unwrap_err(), IngestError::InvalidDate);
}

#[test]
fn parse_blog_missing_field_is_invalid_header() {
    let text = "---\ntitle: T\ndate: 01-01-2020\narchived: false\n---\nbody";
    assert_eq!(
        parse_blog("x", text).unwrap_err(),
        IngestError::InvalidHeader(HeaderFault::MissingField)
    );
}

#[test]
fn parse_blog_renders_math_in_the_body() {
    let text = post_text("T", "01-01-2020", false, "[]", "value $x>1$ here");
    let p = parse_blog("x", &text).expect("should parse");
    assert!(p.content.contains("<math"));
    assert!(!p.content.contains("data-math-style"));
}

#[test]
fn parse_blog_bad_math_is_a_math_error() {
    let text = post_text("T", "01-01-2020", false, "[]", "broken $\\frac$ math");
    match parse_blog("x", &text).unwrap_err() {
        IngestError::MathRender(_) => {},
        other => panic!("expected a math fault, got {:?}", other),
    }
}

#[test]
fn word_counting_splits_on_whitespace() {
    assert_eq!(count_words(""), 0);
    assert_eq!(count_words("   "), 0);
    assert_eq!(count_words("one"), 1);
    assert_eq!(count_words("  one\ttwo\nthree  "), 3);
}

#[test]
fn read_time_is_floor_of_words_over_rate() {
    let body = vec!["word"; 399].join(" ");
    let text = post_text("T", "01-01-2020", false, "[]", &body);
    let p = parse_blog("x", &text).expect("should parse");
    assert_eq!(p.estimated_read_time, 1);
}

#[test]
fn loader_skips_non_markdown_files() {
    let files = vec![
        file("a.md", &post_text("A", "01-01-2020", false, "[]", "body")),
        file("notes.txt", "not markdown"),
        file("style.css", "body {}"),
    ];
    let (posts, skipped) = load_documents(&files).expect("should load");
    assert_eq!(posts.len(), 1);
    assert_eq!(skipped.len(), 2);
    assert_eq!(skipped[0].name, "notes.txt");
    assert_eq!(skipped[0].reason, SkipReason::NotMarkdown);
}

#[test]
fn loader_accepts_both_markdown_extensions() {
    let files = vec![
        file("a.md", &post_text("A", "01-01-2020", false, "[]", "body")),
        file("b.markdown", &post_text("B", "02-01-2020", false, "[]", "body")),
    ];
    let (posts, _) = load_documents(&files).expect("should load");
    assert_eq!(posts.len(), 2);
    assert_eq!(posts[0].url, "a");
    assert_eq!(posts[1].url, "b");
}

#[test]
fn loader_keeps_first_of_duplicate_identifiers() {
    let files = vec![
        file("a.md", &post_text("First", "01-01-2020", false, "[]", "body")),
        file("a.markdown", &post_text("Second", "02-01-2020", false, "[]", "body")),
        file("b.md", &post_text("Other", "03-01-2020", false, "[]", "body")),
    ];
    let (posts, skipped) = load_documents(&files).expect("should load");
    assert_eq!(posts.len(), 2);
    assert_eq!(posts[0].title, "First");
    assert_eq!(skipped.len(), 1);
    assert_eq!(skipped[0].name, "a.markdown");
    assert_eq!(skipped[0].reason, SkipReason::DuplicateIdentifier);
}

#[test]
fn loader_fails_whole_load_on_one_bad_file() {
    let files = vec![
        file("good.md", &post_text("A", "01-01-2020", false, "[]", "body")),
        file("bad.md", "no header at all"),
    ];
    let err = load_documents(&files).unwrap_err();
    assert_eq!(err.file, "bad.md");
    assert_eq!(err.cause, IngestError::MalformedHeader);
}

#[test]
fn new_state_sorts_by_date_descending() {
    let files = vec![
        file("old.md", &post_text("Old", "01-01-2019", false, "[]", "body")),
        file("new.md", &post_text("New", "01-01-2021", false, "[]", "body")),
        file("mid.md", &post_text("Mid", "01-01-2020", false, "[]", "body")),
    ];
    let (state, _) = new_state(&files).expect("should load");
    let titles: Vec<&str> = state.blogposts.iter().map(|p| p.title.as_str()).collect();
    assert_eq!(titles, vec!["New", "Mid", "Old"]);
}

#[test]
fn sorting_is_stable_on_equal_dates() {
    let files = vec![
        file("late.md", &post_text("Later", "01-01-2018", false, "[]", "body")),
        file("first.md", &post_text("First", "07-07-2020", false, "[]", "body")),
        file("second.md", &post_text("Second", "07-07-2020", false, "[]", "body")),
    ];
    let (posts, _) = load_documents(&files).expect("should load");
    let sorted = sort_documents(posts);
    let titles: Vec<&str> = sorted.iter().map(|p| p.title.as_str()).collect();
    assert_eq!(titles, vec!["First", "Second", "Later"]);
}

#[test]
fn find_by_url_finds_first_match() {
    let files = vec![
        file("a.md", &post_text("A", "01-01-2020", false, "[]", "body")),
        file("b.md", &post_text("B", "02-01-2020", false, "[]", "body")),
    ];
    let (posts, _) = load_documents(&files).expect("should load");
    let i = find_by_url(&posts, "b").expect("should find");
    assert_eq!(posts[i].title, "B");
    assert!(find_by_url(&posts, "zzz").is_none());
}

#[test]
fn archived_posts_are_hidden_from_listings() {
    let files = vec![
        file("a.md", &post_text("A", "01-01-2020", true, "[]", "body")),
        file("b.md", &post_text("B", "02-01-2020", false, "[]", "body")),
    ];
    let (posts, _) = load_documents(&files).expect("should load");
    let visible = visible_indices(&posts);
    assert_eq!(visible.len(), 1);
    assert_eq!(posts[visible[0]].title, "B");
    assert!(find_by_url(&posts, "a").is_some());
}

#[test]
fn tag_filter_selects_visible_tagged_posts() {
    let files = vec![
        file("a.md", &post_text("A", "01-01-2020", false, "[rust, web]", "body")),
        file("b.md", &post_text("B", "02-01-2020", false, "[web]", "body")),
        file("c.md", &post_text("C", "03-01-2020", true, "[rust]", "body")),
        file("d.md", &post_text("D", "04-01-2020", false, "[]", "body")),
    ];
    let (posts, _) = load_documents(&files).expect("should load");
    let rusty = tagged_indices(&posts, "rust");
    assert_eq!(rusty.len(), 1);
    assert_eq!(posts[rusty[0]].title, "A");
    let webby = tagged_indices(&posts, "web");
    assert_eq!(webby.len(), 2);
}

#[test]
fn one_blog_post_struct_carries_all_fields() {
    let p = BlogPost {
        url: "u".to_string(),
        title: "t".to_string(),
        date: Date { day: 1, month: 1, year: 2020 },
        archived: false,
        tags: vec![],
        content: "<p>c</p>".to_string(),
        estimated_read_time: 3,
    };
    assert_eq!(p.estimated_read_time, 3);
}
