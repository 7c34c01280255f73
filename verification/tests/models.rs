use see_core::models::{host_of, page_url_for, preview_of, FileEntry, LinkEntry, TextEntry};

#[test]
fn preview_keeps_short_content_whole() {
    assert_eq!(preview_of("hello"), String::from("hello"));
    assert_eq!(preview_of(""), String::from(""));
}

#[test]
fn preview_cuts_at_one_hundred_characters() {
    let long: String = "a".repeat(250);
    let p = preview_of(long.as_str());
    assert_eq!(p.chars().count(), 100);
    assert_eq!(p, "a".repeat(100));
    let exactly: String = "b".repeat(100);
    assert_eq!(preview_of(exactly.as_str()), exactly);
}

#[test]
fn preview_counts_characters_not_bytes() {
    let long: String = "\u{1F600}".repeat(120);
    let p = preview_of(long.as_str());
    assert_eq!(p.chars().count(), 100);
}

#[test]
fn host_is_the_segment_after_the_scheme() {
    assert_eq!(host_of("https://s.ee/abc", "fallback"), String::from("s.ee"));
    assert_eq!(host_of("https://p.s.ee/x/y/z", "fallback"), String::from("p.s.ee"));
    assert_eq!(host_of("http://h", "fallback"), String::from("h"));
}

#[test]
fn host_falls_back_when_the_shape_is_wrong() {
    assert_eq!(host_of("no-slashes", "p.s.ee"), String::from("p.s.ee"));
    assert_eq!(host_of("one/slash", "i.s.ee"), String::from("i.s.ee"));
    assert_eq!(host_of("", "d"), String::from("d"));
}

#[test]
fn host_of_empty_segment() {
    assert_eq!(host_of("a//", "f"), String::from(""));
}

#[test]
fn page_url_is_scheme_domain_slug() {
    assert_eq!(page_url_for("p.s.ee", "xy"), String::from("https://p.s.ee/xy"));
}

#[test]
fn constructors_keep_their_fields() {
    let l = LinkEntry::new(
        String::from("https://example.com"),
        String::from("https://s.ee/a"),
        String::from("s.ee"),
        String::from("a"),
        Some(String::from("t")),
    );
    assert_eq!(l.original_url, String::from("https://example.com"));
    assert_eq!(l.short_url, String::from("https://s.ee/a"));
    assert_eq!(l.domain, String::from("s.ee"));
    assert_eq!(l.slug, String::from("a"));
    assert_eq!(l.title, Some(String::from("t")));

    let t = TextEntry::new(
        String::from("https://p.s.ee/b"),
        Some(String::from("https://p.s.ee/b")),
        String::from("p.s.ee"),
        String::from("b"),
        None,
        Some(String::from("markdown")),
        String::from("pre"),
    );
    assert_eq!(t.slug, String::from("b"));
    assert_eq!(t.syntax, Some(String::from("markdown")));
    assert_eq!(t.content_preview, String::from("pre"));

    let f = FileEntry::new(
        String::from("https://i.s.ee/c"),
        None,
        String::from("i.s.ee"),
        String::from("c"),
        String::from("c.png"),
        7,
        None,
    );
    assert_eq!(f.filename, String::from("c.png"));
    assert_eq!(f.size, 7);
}

#[test]
fn entry_copies_are_field_for_field() {
    let l = LinkEntry {
        original_url: String::from("o"),
        short_url: String::from("s"),
        domain: String::from("d"),
        slug: String::from("g"),
        title: Some(String::from("t")),
        created_at: 5,
    };
    let c = l.clone_entry();
    assert_eq!(c.original_url, l.original_url);
    assert_eq!(c.title, l.title);
    assert_eq!(c.created_at, l.created_at);
}
