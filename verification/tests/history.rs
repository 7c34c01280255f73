use see_core::history::History;
use see_core::models::{FileEntry, LinkEntry, TextEntry};

fn link(domain: &str, slug: &str) -> LinkEntry {
    LinkEntry {
        original_url: format!("https://example.com/{}", slug),
        short_url: format!("https://{}/{}", domain, slug),
        domain: String::from(domain),
        slug: String::from(slug),
        title: None,
        created_at: 1700000000,
    }
}

fn text(domain: &str, slug: &str) -> TextEntry {
    TextEntry {
        url: format!("https://{}/{}", domain, slug),
        page_url: None,
        domain: String::from(domain),
        slug: String::from(slug),
        title: Some(String::from("t")),
        syntax: None,
        content_preview: String::from("hello"),
        created_at: 1700000001,
    }
}

fn file(domain: &str, slug: &str) -> FileEntry {
    FileEntry {
        url: format!("https://{}/{}", domain, slug),
        page_url: Some(format!("https://{}/p/{}", domain, slug)),
        domain: String::from(domain),
        slug: String::from(slug),
        filename: String::from("a.png"),
        size: 42,
        mime_type: Some(String::from("image/png")),
        created_at: 1700000002,
    }
}

#[test]
fn prepend_puts_the_newest_link_first() {
    let mut h = History::default();
    h.add_link(link("s.ee", "r1"));
    h.add_link(link("s.ee", "r2"));
    let links = h.links();
    assert_eq!(links.len(), 2);
    assert_eq!(links[0].slug, String::from("r2"));
    assert_eq!(links[1].slug, String::from("r1"));
}

#[test]
fn prepend_puts_the_newest_text_and_file_first() {
    let mut h = History::default();
    h.add_text(text("p.s.ee", "a"));
    h.add_text(text("p.s.ee", "b"));
    assert_eq!(h.texts()[0].slug, String::from("b"));
    assert_eq!(h.texts()[1].slug, String::from("a"));
    h.add_file(file("i.s.ee", "f1"));
    h.add_file(file("i.s.ee", "f2"));
    assert_eq!(h.files()[0].slug, String::from("f2"));
    assert_eq!(h.files()[1].slug, String::from("f1"));
}

#[test]
fn removal_matches_by_domain_and_slug() {
    let mut h = History::default();
    h.add_link(link("d", "other"));
    h.add_link(link("d", "s"));
    h.add_link(link("d", "s"));
    h.remove_link("d", "s");
    let links = h.links();
    assert_eq!(links.len(), 1);
    assert_eq!(links[0].slug, String::from("other"));
}

#[test]
fn removal_needs_both_parts_of_the_key() {
    let mut h = History::default();
    h.add_text(text("d1", "s"));
    h.add_text(text("d2", "s"));
    h.remove_text("d1", "s");
    let texts = h.texts();
    assert_eq!(texts.len(), 1);
    assert_eq!(texts[0].domain, String::from("d2"));
}

#[test]
fn removal_keeps_the_order_of_the_rest() {
    let mut h = History::default();
    h.add_file(file("d", "a"));
    h.add_file(file("d", "kill"));
    h.add_file(file("d", "b"));
    h.remove_file("d", "kill");
    let files = h.files();
    assert_eq!(files.len(), 2);
    assert_eq!(files[0].slug, String::from("b"));
    assert_eq!(files[1].slug, String::from("a"));
}

#[test]
fn clearing_one_kind_leaves_the_others() {
    let mut h = History::default();
    h.add_link(link("d", "l"));
    h.add_text(text("d", "t"));
    h.add_file(file("d", "f"));
    h.clear_texts();
    assert_eq!(h.texts().len(), 0);
    assert_eq!(h.links().len(), 1);
    assert_eq!(h.files().len(), 1);
    h.clear_links();
    h.clear_files();
    assert_eq!(h.links().len(), 0);
    assert_eq!(h.files().len(), 0);
}
