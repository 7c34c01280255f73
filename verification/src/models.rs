use vstd::prelude::*;

verus! {

/// Mathematical model of a link record.
pub struct LinkEntryV {
    pub original_url: Seq<char>,
    pub short_url: Seq<char>,
    pub domain: Seq<char>,
    pub slug: Seq<char>,
    pub title: Option<Seq<char>>,
    pub created_at: int,
}

/// Mathematical model of a text record.
pub struct TextEntryV {
    pub url: Seq<char>,
    pub page_url: Option<Seq<char>>,
    pub domain: Seq<char>,
    pub slug: Seq<char>,
    pub title: Option<Seq<char>>,
    pub syntax: Option<Seq<char>>,
    pub content_preview: Seq<char>,
    pub created_at: int,
}

/// Mathematical model of a file record.
pub struct FileEntryV {
    pub url: Seq<char>,
    pub page_url: Option<Seq<char>>,
    pub domain: Seq<char>,
    pub slug: Seq<char>,
    pub filename: Seq<char>,
    pub size: int,
    pub mime_type: Option<Seq<char>>,
    pub created_at: int,
}

pub open spec fn view_opt(o: Option<String>) -> Option<Seq<char>> {
    match o {
        Some(s) => Some(s@),
        None => None,
    }
}

/// One remembered short link.
///
/// `(domain, slug)` identifies the record within the link list for
/// deletion; `created_at` is a Unix timestamp fixed at construction.
#[derive(Debug, Clone)]
pub struct LinkEntry {
    pub original_url: String,
    pub short_url: String,
    pub domain: String,
    pub slug: String,
    pub title: Option<String>,
    pub created_at: i64,
}

impl View for LinkEntry {
    type V = LinkEntryV;

    open spec fn view(&self) -> LinkEntryV {
        LinkEntryV {
            original_url: self.original_url@,
            short_url: self.short_url@,
            domain: self.domain@,
            slug: self.slug@,
            title: view_opt(self.title),
            created_at: self.created_at as int,
        }
    }
}

impl LinkEntry {
    /// Builds a link record stamped with the current time.
    pub fn new(
        original_url: String,
        short_url: String,
        domain: String,
        slug: String,
        title: Option<String>,
    ) -> (r: LinkEntry)
        ensures
            r@.original_url == original_url@,
            r@.short_url == short_url@,
            r@.domain == domain@,
            r@.slug == slug@,
            r@.title == view_opt(title),
    {
        LinkEntry { original_url, short_url, domain, slug, title, created_at: now_timestamp() }
    }
}

/// One remembered text snippet, with a bounded content preview.
#[derive(Debug, Clone)]
pub struct TextEntry {
    pub url: String,
    pub page_url: Option<String>,
    pub domain: String,
    pub slug: String,
    pub title: Option<String>,
    pub syntax: Option<String>,
    pub content_preview: String,
    pub created_at: i64,
}

impl View for TextEntry {
    type V = TextEntryV;

    open spec fn view(&self) -> TextEntryV {
        TextEntryV {
            url: self.url@,
            page_url: view_opt(self.page_url),
            domain: self.domain@,
            slug: self.slug@,
            title: view_opt(self.title),
            syntax: view_opt(self.syntax),
            content_preview: self.content_preview@,
            created_at: self.created_at as int,
        }
    }
}

impl TextEntry {
    /// Builds a text record stamped with the current time.
    pub fn new(
        url: String,
        page_url: Option<String>,
        domain: String,
        slug: String,
        title: Option<String>,
        syntax: Option<String>,
        content_preview: String,
    ) -> (r: TextEntry)
        ensures
            r@.url == url@,
            r@.page_url == view_opt(page_url),
            r@.domain == domain@,
            r@.slug == slug@,
            r@.title == view_opt(title),
            r@.syntax == view_opt(syntax),
            r@.content_preview == content_preview@,
    {
        TextEntry {
            url,
            page_url,
            domain,
            slug,
            title,
            syntax,
            content_preview,
            created_at: now_timestamp(),
        }
    }
}

/// One remembered file upload.
#[derive(Debug, Clone)]
pub struct FileEntry {
    pub url: String,
    pub page_url: Option<String>,
    pub domain: String,
    pub slug: String,
    pub filename: String,
    pub size: u64,
    pub mime_type: Option<String>,
    pub created_at: i64,
}

impl View for FileEntry {
    type V = FileEntryV;

    open spec fn view(&self) -> FileEntryV {
        FileEntryV {
            url: self.url@,
            page_url: view_opt(self.page_url),
            domain: self.domain@,
            slug: self.slug@,
            filename: self.filename@,
            size: self.size as int,
            mime_type: view_opt(self.mime_type),
            created_at: self.created_at as int,
        }
    }
}

impl FileEntry {
    /// Builds a file record stamped with the current time.
    pub fn new(
        url: String,
        page_url: Option<String>,
        domain: String,
        slug: String,
        filename: String,
        size: u64,
        mime_type: Option<String>,
    ) -> (r: FileEntry)
        ensures
            r@.url == url@,
            r@.page_url == view_opt(page_url),
            r@.domain == domain@,
            r@.slug == slug@,
            r@.filename == filename@,
            r@.size == size as int,
            r@.mime_type == view_opt(mime_type),
    {
        FileEntry {
            url,
            page_url,
            domain,
            slug,
            filename,
            size,
            mime_type,
            created_at: now_timestamp(),
        }
    }
}

/// Whether two strings hold the same characters.
pub fn contents_eq(a: &str, b: &str) -> (r: bool)
    ensures
        r == (a@ == b@),
{
    let sa = String::from_str(a);
    let sb = String::from_str(b);
    sa.eq(&sb)
}

/// A copy of an optional string, equal to the original.
pub fn clone_opt(o: &Option<String>) -> (r: Option<String>)
    ensures
        r == *o,
{
    match o {
        Some(s) => Some(s.clone()),
        None => None,
    }
}

impl LinkEntry {
    /// A field-for-field copy.
    pub fn clone_entry(&self) -> (r: LinkEntry)
        ensures
            r@ == self@,
    {
        LinkEntry {
            original_url: self.original_url.clone(),
            short_url: self.short_url.clone(),
            domain: self.domain.clone(),
            slug: self.slug.clone(),
            title: clone_opt(&self.title),
            created_at: self.created_at,
        }
    }
}

impl TextEntry {
    /// A field-for-field copy.
    pub fn clone_entry(&self) -> (r: TextEntry)
        ensures
            r@ == self@,
    {
        TextEntry {
            url: self.url.clone(),
            page_url: clone_opt(&self.page_url),
            domain: self.domain.clone(),
            slug: self.slug.clone(),
            title: clone_opt(&self.title),
            syntax: clone_opt(&self.syntax),
            content_preview: self.content_preview.clone(),
            created_at: self.created_at,
        }
    }
}

impl FileEntry {
    /// A field-for-field copy.
    pub fn clone_entry(&self) -> (r: FileEntry)
        ensures
            r@ == self@,
    {
        FileEntry {
            url: self.url.clone(),
            page_url: clone_opt(&self.page_url),
            domain: self.domain.clone(),
            slug: self.slug.clone(),
            filename: self.filename.clone(),
            size: self.size,
            mime_type: clone_opt(&self.mime_type),
            created_at: self.created_at,
        }
    }
}

/// Relies on std::time::SystemTime::now: the clock decides the result,
/// so nothing is promised of it. Total on every clock state: a clock
/// before the Unix epoch reads as the sentinel 0 rather than aborting.
#[verifier::external_body]
fn now_timestamp() -> i64 {
    match std::time::SystemTime::now().duration_since(std::time::UNIX_EPOCH) {
        Ok(d) => d.as_secs() as i64,
        Err(_) => 0,
    }
}

/// How many characters of a text's content the preview keeps.
pub open spec fn preview_limit() -> int {
    100
}

/// First characters of `content`, up to the preview bound.
pub fn preview_of(content: &str) -> (r: String)
    ensures
        r@ == (if content@.len() <= preview_limit() {
            content@
        } else {
            content@.take(preview_limit())
        }),
{
    let n = content.unicode_len();
    if n <= 100 {
        proof {
            assert(content@.take(content@.len() as int) =~= content@);
        }
        String::from_str(content.substring_char(0, n))
    } else {
        String::from_str(content.substring_char(0, 100))
    }
}

/// Index of the first `/` at or after `i`, or the length when there is none.
pub open spec fn slash_after(s: Seq<char>, i: int) -> int
    decreases s.len() - i when 0 <= i <= s.len()
{
    if i >= s.len() {
        s.len() as int
    } else if s[i] == '/' {
        i
    } else {
        slash_after(s, i + 1)
    }
}

pub proof fn lemma_slash_after(s: Seq<char>, i: int)
    requires
        0 <= i <= s.len(),
    ensures
        i <= slash_after(s, i) <= s.len(),
        slash_after(s, i) < s.len() ==> s[slash_after(s, i)] == '/',
        forall|j: int| i <= j < slash_after(s, i) ==> s[j] != '/',
    decreases s.len() - i,
{
    if i < s.len() && s[i] != '/' {
        lemma_slash_after(s, i + 1);
    }
}

/// The third `/`-separated segment of `url` (what stands between the second
/// and third slash: for a typical URL, its host), or `fallback` when `url`
/// has fewer than two slashes.
pub open spec fn host_of_spec(url: Seq<char>, fallback: Seq<char>) -> Seq<char> {
    let a = slash_after(url, 0);
    if a >= url.len() {
        fallback
    } else {
        let b = slash_after(url, a + 1);
        if b >= url.len() {
            fallback
        } else {
            url.subrange(b + 1, slash_after(url, b + 1))
        }
    }
}

/// Extracts the host segment of `url`, falling back when the shape is not
/// `scheme://host/...`.
pub fn host_of(url: &str, fallback: &str) -> (r: String)
    ensures
        r@ == host_of_spec(url@, fallback@),
{
    let n = url.unicode_len();
    let ghost s = url@;
    // position of the first slash
    let mut a: usize = 0;
    while a < n && url.get_char(a) != '/'
        invariant
            0 <= a <= n,
            n == s.len(),
            s == url@,
            forall|j: int| 0 <= j < a ==> s[j] != '/',
        decreases n - a,
    {
        a += 1;
    }
    proof {
        lemma_slash_after(s, 0);
        assert(a as int == slash_after(s, 0)) by {
            if a < n {
                if slash_after(s, 0) < a {
                    assert(s[slash_after(s, 0)] == '/');
                }
            } else {
                if slash_after(s, 0) < a {
                    assert(s[slash_after(s, 0)] == '/');
                }
            }
        };
    }
    if a >= n {
        return String::from_str(fallback);
    }
    // position of the second slash
    let mut b: usize = a + 1;
    while b < n && url.get_char(b) != '/'
        invariant
            a < n,
            a + 1 <= b <= n,
            n == s.len(),
            s == url@,
            forall|j: int| a + 1 <= j < b ==> s[j] != '/',
        decreases n - b,
    {
        b += 1;
    }
    proof {
        lemma_slash_after(s, a + 1);
        assert(b as int == slash_after(s, a + 1)) by {
            if slash_after(s, a + 1) < b {
                assert(s[slash_after(s, a + 1)] == '/');
            }
        };
    }
    if b >= n {
        return String::from_str(fallback);
    }
    // position of the third slash, or the end
    let mut c: usize = b + 1;
    while c < n && url.get_char(c) != '/'
        invariant
            b < n,
            b + 1 <= c <= n,
            n == s.len(),
            s == url@,
            forall|j: int| b + 1 <= j < c ==> s[j] != '/',
        decreases n - c,
    {
        c += 1;
    }
    proof {
        lemma_slash_after(s, b + 1);
        assert(c as int == slash_after(s, b + 1)) by {
            if slash_after(s, b + 1) < c {
                assert(s[slash_after(s, b + 1)] == '/');
            }
        };
    }
    String::from_str(url.substring_char(b + 1, c))
}

/// The shareable page address for a record: `https://` + domain + `/` + slug.
pub fn page_url_for(domain: &str, slug: &str) -> (r: String)
    ensures
        r@ == "https://"@ + domain@ + "/"@ + slug@,
{
    let mut r = String::from_str("https://");
    r.append(domain);
    r.append("/");
    r.append(slug);
    r
}

} // verus!
