use see_core::error::AppError;
use see_core::history::History;
use see_core::json::{decode_history, encode_history, history_from_content};
use see_core::models::{FileEntry, LinkEntry, TextEntry};

fn sample() -> History {
    History {
        links: vec![
            LinkEntry {
                original_url: String::from("https://example.com/very/long?q=1&r=2"),
                short_url: String::from("https://s.ee/ab"),
                domain: String::from("s.ee"),
                slug: String::from("ab"),
                title: Some(String::from("A \"quoted\" title \\ with escapes")),
                created_at: 1700000000,
            },
            LinkEntry {
                original_url: String::from("https://example.org"),
                short_url: String::from("https://s.ee/cd"),
                domain: String::from("s.ee"),
                slug: String::from("cd"),
                title: None,
                created_at: -12345,
            },
        ],
        texts: vec![TextEntry {
            url: String::from("https://p.s.ee/xy"),
            page_url: Some(String::from("https://p.s.ee/xy")),
            domain: String::from("p.s.ee"),
            slug: String::from("xy"),
            title: Some(String::from("notes\nwith a newline\tand tab")),
            syntax: Some(String::from("rust")),
            content_preview: String::from("fn main() { let s = \"\u{1F600} unicode\"; }"),
            created_at: 0,
        }],
        files: vec![
            FileEntry {
                url: String::from("https://i.s.ee/h.png"),
                page_url: None,
                domain: String::from("i.s.ee"),
                slug: String::from("h"),
                filename: String::from("h\u{7}.png"),
                size: u64::MAX,
                mime_type: Some(String::from("image/png")),
                created_at: i64::MIN,
            },
            FileEntry {
                url: String::from("https://i.s.ee/k.txt"),
                page_url: Some(String::from("https://i.s.ee/p/k")),
                domain: String::from("i.s.ee"),
                slug: String::from("k"),
                filename: String::from("k.txt"),
                size: 0,
                mime_type: None,
                created_at: i64::MAX,
            },
        ],
    }
}

fn same_history(a: &History, b: &History) {
    assert_eq!(a.links.len(), b.links.len());
    for (x, y) in a.links.iter().zip(b.links.iter()) {
        assert_eq!(x.original_url, y.original_url);
        assert_eq!(x.short_url, y.short_url);
        assert_eq!(x.domain, y.domain);
        assert_eq!(x.slug, y.slug);
        assert_eq!(x.title, y.title);
        assert_eq!(x.created_at, y.created_at);
    }
    assert_eq!(a.texts.len(), b.texts.len());
    for (x, y) in a.texts.iter().zip(b.texts.iter()) {
        assert_eq!(x.url, y.url);
        assert_eq!(x.page_url, y.page_url);
        assert_eq!(x.domain, y.domain);
        assert_eq!(x.slug, y.slug);
        assert_eq!(x.title, y.title);
        assert_eq!(x.syntax, y.syntax);
        assert_eq!(x.content_preview, y.content_preview);
        assert_eq!(x.created_at, y.created_at);
    }
    assert_eq!(a.files.len(), b.files.len());
    for (x, y) in a.files.iter().zip(b.files.iter()) {
        assert_eq!(x.url, y.url);
        assert_eq!(x.page_url, y.page_url);
        assert_eq!(x.domain, y.domain);
        assert_eq!(x.slug, y.slug);
        assert_eq!(x.filename, y.filename);
        assert_eq!(x.size, y.size);
        assert_eq!(x.mime_type, y.mime_type);
        assert_eq!(x.created_at, y.created_at);
    }
}

#[test]
fn round_trip_keeps_content_and_order() {
    let h = sample();
    let doc = encode_history(&h);
    let back = decode_history(doc.as_str()).unwrap();
    same_history(&h, &back);
}

#[test]
fn round_trip_is_stable_across_repeated_cycles() {
    let h = sample();
    let doc1 = encode_history(&h);
    let back1 = decode_history(doc1.as_str()).unwrap();
    let doc2 = encode_history(&back1);
    assert_eq!(doc1, doc2);
    let back2 = decode_history(doc2.as_str()).unwrap();
    same_history(&h, &back2);
}

#[test]
fn empty_ledger_round_trips() {
    let h = History::default();
    let doc = encode_history(&h);
    assert_eq!(doc, String::from("{\"links\":[],\"texts\":[],\"files\":[]}"));
    let back = decode_history(doc.as_str()).unwrap();
    assert_eq!(back.links.len(), 0);
    assert_eq!(back.texts.len(), 0);
    assert_eq!(back.files.len(), 0);
}

#[test]
fn missing_file_reads_as_an_empty_ledger() {
    let h = history_from_content(None).unwrap();
    assert_eq!(h.links.len(), 0);
    assert_eq!(h.texts.len(), 0);
    assert_eq!(h.files.len(), 0);
}

#[test]
fn truncated_content_is_a_corrupt_error() {
    let r = history_from_content(Some("{\"links\":[{\"original_url\":\"https:"));
    assert!(matches!(r, Err(AppError::Corrupt(_))));
}

#[test]
fn nonsense_content_is_a_corrupt_error() {
    for bad in ["", "42", "[1,2,3]", "{\"links\":7}", "{\"links\":[],\"texts\":[]}", "null"] {
        let r = decode_history(bad);
        assert!(matches!(r, Err(AppError::Corrupt(_))));
    }
}

#[test]
fn trailing_garbage_is_a_corrupt_error() {
    let doc = format!("{}x", encode_history(&History::default()));
    assert!(matches!(decode_history(doc.as_str()), Err(AppError::Corrupt(_))));
}

#[test]
fn whitespace_between_tokens_is_tolerated() {
    let doc = "\n{\t\"links\" : [ ] ,\r\n \"texts\": [ { \"url\": \"u\", \"domain\": \"d\", \
               \"slug\": \"s\", \"content_preview\": \"c\", \"created_at\": 7 } ], \
               \"files\" : [ ] }\n";
    let h = decode_history(doc).unwrap();
    assert_eq!(h.texts.len(), 1);
    assert_eq!(h.texts[0].url, String::from("u"));
    assert_eq!(h.texts[0].created_at, 7);
}

#[test]
fn field_order_does_not_matter() {
    let doc = "{\"files\":[],\"texts\":[],\"links\":[{\"created_at\":-3,\"slug\":\"s\",\
               \"domain\":\"d\",\"title\":null,\"short_url\":\"su\",\"original_url\":\"ou\"}]}";
    let h = decode_history(doc).unwrap();
    assert_eq!(h.links.len(), 1);
    assert_eq!(h.links[0].original_url, String::from("ou"));
    assert_eq!(h.links[0].short_url, String::from("su"));
    assert_eq!(h.links[0].created_at, -3);
    assert!(h.links[0].title.is_none());
}

#[test]
fn absent_optional_fields_default_to_empty() {
    let doc = "{\"links\":[],\"texts\":[{\"url\":\"u\",\"domain\":\"d\",\"slug\":\"s\",\
               \"content_preview\":\"c\",\"created_at\":1}],\"files\":[{\"url\":\"u\",\
               \"domain\":\"d\",\"slug\":\"s\",\"filename\":\"f\",\"size\":9,\"created_at\":2}]}";
    let h = decode_history(doc).unwrap();
    assert!(h.texts[0].page_url.is_none());
    assert!(h.texts[0].title.is_none());
    assert!(h.texts[0].syntax.is_none());
    assert!(h.files[0].page_url.is_none());
    assert!(h.files[0].mime_type.is_none());
    assert_eq!(h.files[0].size, 9);
}

#[test]
fn unicode_escapes_in_strings_are_read() {
    let doc = "{\"links\":[],\"texts\":[{\"url\":\"a\\u0009b\\\"c\\\\d\\/e\\n\",\"domain\":\"d\",\
               \"slug\":\"s\",\"content_preview\":\"\",\"created_at\":0}],\"files\":[]}";
    let h = decode_history(doc).unwrap();
    assert_eq!(h.texts[0].url, String::from("a\tb\"c\\d/e\n"));
}

#[test]
fn missing_required_field_is_a_corrupt_error() {
    let doc = "{\"links\":[{\"original_url\":\"ou\",\"short_url\":\"su\",\"domain\":\"d\",\
               \"created_at\":1}],\"texts\":[],\"files\":[]}";
    assert!(matches!(decode_history(doc), Err(AppError::Corrupt(_))));
}

#[test]
fn the_document_is_plain_json_to_other_readers() {
    let h = sample();
    let doc = encode_history(&h);
    let v: serde_json::Value = serde_json::from_str(doc.as_str()).unwrap();
    assert_eq!(v["links"].as_array().unwrap().len(), 2);
    assert_eq!(v["links"][0]["slug"].as_str().unwrap(), "ab");
    assert_eq!(v["links"][1]["created_at"].as_i64().unwrap(), -12345);
    assert_eq!(v["texts"][0]["syntax"].as_str().unwrap(), "rust");
    assert!(v["files"][0]["page_url"].is_null());
    assert_eq!(v["files"][0]["size"].as_u64().unwrap(), u64::MAX);
}
