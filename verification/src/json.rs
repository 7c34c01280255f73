//! The ledger's document format: one structured text document holding the
//! three record sequences under three named fields, with timestamps
//! written as whole seconds and counts as plain numbers.
//!
//! [`encode_history`] renders the canonical form; [`decode_history`] reads
//! it back, tolerating whitespace, reordered fields and absent optional
//! fields, and answers anything unreadable with a `Corrupt` error.
//!
//! The contracts pin the canonical form in both directions: what
//! `encode_history` writes, character for character, and that every
//! canonical document decodes to exactly the ledger it renders. The
//! tolerant readings, and the rejection of text that is no document at
//! all, are features of this parser that the contracts do not state;
//! the test suite exercises them.

use crate::error::AppError;
use crate::history::{History, HistoryV};
use crate::models::{contents_eq, FileEntry, FileEntryV, LinkEntry, LinkEntryV, TextEntry, TextEntryV};
use vstd::prelude::*;

verus! {

// ------------------------------------------------------------------
// Scalar values: the only value shapes a ledger record field can take.
// ------------------------------------------------------------------

/// A flat field value in the document: absent, a string, or an integer
/// with an explicit sign.
#[derive(Debug)]
pub enum Scalar {
    Null,
    Text(String),
    Num { neg: bool, mag: u64 },
}

/// Mathematical model of a [`Scalar`].
pub enum ScalarV {
    Null,
    Text(Seq<char>),
    Num { neg: bool, mag: int },
}

impl View for Scalar {
    type V = ScalarV;

    open spec fn view(&self) -> ScalarV {
        match self {
            Scalar::Null => ScalarV::Null,
            Scalar::Text(s) => ScalarV::Text(s@),
            Scalar::Num { neg, mag } => ScalarV::Num { neg: *neg, mag: *mag as int },
        }
    }
}

/// A scalar that some machine could hold: the magnitude fits a word and a
/// negative number is never written with magnitude zero.
spec fn wf_scalar(v: ScalarV) -> bool {
    v matches ScalarV::Num { neg, mag } ==> 0 <= mag <= u64::MAX && (neg ==> mag > 0)
}

// ------------------------------------------------------------------
// Canonical rendering, character by character.
// ------------------------------------------------------------------

/// The character for one decimal digit.
pub open spec fn digit_char(d: int) -> char {
    if d == 0 {
        '0'
    } else if d == 1 {
        '1'
    } else if d == 2 {
        '2'
    } else if d == 3 {
        '3'
    } else if d == 4 {
        '4'
    } else if d == 5 {
        '5'
    } else if d == 6 {
        '6'
    } else if d == 7 {
        '7'
    } else if d == 8 {
        '8'
    } else {
        '9'
    }
}

/// The character for one hexadecimal digit.
pub open spec fn hex_char(d: int) -> char {
    if d < 10 {
        digit_char(d)
    } else if d == 10 {
        'a'
    } else if d == 11 {
        'b'
    } else if d == 12 {
        'c'
    } else if d == 13 {
        'd'
    } else if d == 14 {
        'e'
    } else {
        'f'
    }
}

/// The decimal digits of a non-negative number, most significant first.
pub open spec fn dec_digits(n: int) -> Seq<char>
    recommends
        n >= 0,
    decreases n,
{
    if n < 10 {
        seq![digit_char(n)]
    } else {
        dec_digits(n / 10).push(digit_char(n % 10))
    }
}

/// A number token: an optional minus sign and the decimal digits.
pub open spec fn enc_num(neg: bool, mag: int) -> Seq<char> {
    if neg {
        seq!['-'] + dec_digits(mag)
    } else {
        dec_digits(mag)
    }
}

/// How one character is written inside a string token: quote and backslash
/// escaped, control characters written as a four-digit escape, everything
/// else written as itself.
pub open spec fn esc_char(c: char) -> Seq<char> {
    if c == '"' {
        seq!['\\', '"']
    } else if c == '\\' {
        seq!['\\', '\\']
    } else if (c as u32) < 32 {
        seq!['\\', 'u', '0', '0', hex_char(c as u32 as int / 16), hex_char(c as u32 as int % 16)]
    } else {
        seq![c]
    }
}

/// The body of a string token.
pub open spec fn esc(s: Seq<char>) -> Seq<char>
    decreases s.len(),
{
    if s.len() == 0 {
        Seq::empty()
    } else {
        esc_char(s[0]) + esc(s.skip(1))
    }
}

/// A complete string token.
pub open spec fn enc_str(s: Seq<char>) -> Seq<char> {
    seq!['"'] + esc(s) + seq!['"']
}

/// One scalar as written in the document.
pub open spec fn enc_scalar(v: ScalarV) -> Seq<char> {
    match v {
        ScalarV::Null => seq!['n', 'u', 'l', 'l'],
        ScalarV::Text(s) => enc_str(s),
        ScalarV::Num { neg, mag } => enc_num(neg, mag),
    }
}

/// One `"key": value` pair.
pub open spec fn enc_member(m: (Seq<char>, ScalarV)) -> Seq<char> {
    enc_str(m.0) + seq![':'] + enc_scalar(m.1)
}

/// The comma-separated members of a record object.
pub open spec fn enc_members(ms: Seq<(Seq<char>, ScalarV)>) -> Seq<char>
    decreases ms.len(),
{
    if ms.len() == 0 {
        Seq::empty()
    } else if ms.len() == 1 {
        enc_member(ms[0])
    } else {
        enc_members(ms.drop_last()) + seq![','] + enc_member(ms.last())
    }
}

/// A complete record object.
pub open spec fn enc_obj(ms: Seq<(Seq<char>, ScalarV)>) -> Seq<char> {
    seq!['{'] + enc_members(ms) + seq!['}']
}

/// The comma-separated record objects of one sequence.
pub open spec fn enc_objs(ls: Seq<Seq<(Seq<char>, ScalarV)>>) -> Seq<char>
    decreases ls.len(),
{
    if ls.len() == 0 {
        Seq::empty()
    } else if ls.len() == 1 {
        enc_obj(ls[0])
    } else {
        enc_objs(ls.drop_last()) + seq![','] + enc_obj(ls.last())
    }
}

/// A complete record array.
pub open spec fn enc_arr(ls: Seq<Seq<(Seq<char>, ScalarV)>>) -> Seq<char> {
    seq!['['] + enc_objs(ls) + seq![']']
}

// ------------------------------------------------------------------
// Records as member lists.
// ------------------------------------------------------------------

/// An optional string as a field value.
pub open spec fn opt_scalar(o: Option<Seq<char>>) -> ScalarV {
    match o {
        Some(s) => ScalarV::Text(s),
        None => ScalarV::Null,
    }
}

/// A signed number as a field value.
pub open spec fn num_of_int(n: int) -> ScalarV {
    ScalarV::Num { neg: n < 0, mag: if n < 0 { -n } else { n } }
}

/// The members of a link record, in canonical order.
pub open spec fn link_members(e: LinkEntryV) -> Seq<(Seq<char>, ScalarV)> {
    seq![
        ("original_url"@, ScalarV::Text(e.original_url)),
        ("short_url"@, ScalarV::Text(e.short_url)),
        ("domain"@, ScalarV::Text(e.domain)),
        ("slug"@, ScalarV::Text(e.slug)),
        ("title"@, opt_scalar(e.title)),
        ("created_at"@, num_of_int(e.created_at)),
    ]
}

/// The members of a text record, in canonical order.
pub open spec fn text_members(e: TextEntryV) -> Seq<(Seq<char>, ScalarV)> {
    seq![
        ("url"@, ScalarV::Text(e.url)),
        ("page_url"@, opt_scalar(e.page_url)),
        ("domain"@, ScalarV::Text(e.domain)),
        ("slug"@, ScalarV::Text(e.slug)),
        ("title"@, opt_scalar(e.title)),
        ("syntax"@, opt_scalar(e.syntax)),
        ("content_preview"@, ScalarV::Text(e.content_preview)),
        ("created_at"@, num_of_int(e.created_at)),
    ]
}

/// The members of a file record, in canonical order.
pub open spec fn file_members(e: FileEntryV) -> Seq<(Seq<char>, ScalarV)> {
    seq![
        ("url"@, ScalarV::Text(e.url)),
        ("page_url"@, opt_scalar(e.page_url)),
        ("domain"@, ScalarV::Text(e.domain)),
        ("slug"@, ScalarV::Text(e.slug)),
        ("filename"@, ScalarV::Text(e.filename)),
        ("size"@, ScalarV::Num { neg: false, mag: e.size }),
        ("mime_type"@, opt_scalar(e.mime_type)),
        ("created_at"@, num_of_int(e.created_at)),
    ]
}

pub open spec fn link_objs(s: Seq<LinkEntryV>) -> Seq<Seq<(Seq<char>, ScalarV)>> {
    Seq::new(s.len(), |i: int| link_members(s[i]))
}

pub open spec fn text_objs(s: Seq<TextEntryV>) -> Seq<Seq<(Seq<char>, ScalarV)>> {
    Seq::new(s.len(), |i: int| text_members(s[i]))
}

pub open spec fn file_objs(s: Seq<FileEntryV>) -> Seq<Seq<(Seq<char>, ScalarV)>> {
    Seq::new(s.len(), |i: int| file_members(s[i]))
}

/// The canonical document for a ledger: one object holding the three
/// sequences under their three field names.
pub open spec fn json_of_history(h: HistoryV) -> Seq<char> {
    seq!['{'] + enc_str("links"@) + seq![':'] + enc_arr(link_objs(h.links)) + seq![','] + enc_str(
        "texts"@,
    ) + seq![':'] + enc_arr(text_objs(h.texts)) + seq![','] + enc_str("files"@) + seq![':']
        + enc_arr(file_objs(h.files)) + seq!['}']
}

/// A ledger model whose numbers a machine could hold: what the view of
/// any actual [`History`] satisfies.
pub open spec fn wf_history(h: HistoryV) -> bool {
    &&& forall|i: int|
        0 <= i < h.links.len() ==> i64::MIN <= (#[trigger] h.links[i]).created_at <= i64::MAX
    &&& forall|i: int|
        0 <= i < h.texts.len() ==> i64::MIN <= (#[trigger] h.texts[i]).created_at <= i64::MAX
    &&& forall|i: int|
        0 <= i < h.files.len() ==> i64::MIN <= (#[trigger] h.files[i]).created_at <= i64::MAX
            && 0 <= h.files[i].size <= u64::MAX
}

/// The view of an actual ledger is always well formed.
pub proof fn lemma_history_view_wf(h: &History)
    ensures
        wf_history(h@),
{
}

// ------------------------------------------------------------------
// Writing the canonical document.
// ------------------------------------------------------------------

/// Relies on String::push: appends the given character to the end.
#[verifier::external_body]
fn push_char(out: &mut String, c: char)
    ensures
        final(out)@ == old(out)@.push(c),
{
    out.push(c);
}

/// Splitting a string splits its token body.
proof fn lemma_esc_concat(s1: Seq<char>, s2: Seq<char>)
    ensures
        esc(s1 + s2) == esc(s1) + esc(s2),
    decreases s1.len(),
{
    if s1.len() == 0 {
        assert(s1 + s2 =~= s2);
        assert(esc(s1) + esc(s2) =~= esc(s2));
    } else {
        lemma_esc_concat(s1.skip(1), s2);
        assert((s1 + s2).skip(1) =~= s1.skip(1) + s2);
        assert((s1 + s2)[0] == s1[0]);
        assert(esc_char(s1[0]) + (esc(s1.skip(1)) + esc(s2)) =~= (esc_char(s1[0]) + esc(
            s1.skip(1),
        )) + esc(s2));
    }
}

/// One more character extends the token body by that character's escape.
proof fn lemma_esc_snoc(s: Seq<char>, i: int)
    requires
        0 <= i < s.len(),
    ensures
        esc(s.take(i + 1)) == esc(s.take(i)) + esc_char(s[i]),
{
    lemma_esc_concat(s.take(i), seq![s[i]]);
    assert(s.take(i + 1) =~= s.take(i) + seq![s[i]]);
    assert(seq![s[i]].skip(1) =~= Seq::<char>::empty());
    assert(esc(Seq::<char>::empty()) == Seq::<char>::empty());
    assert(esc(seq![s[i]]) == esc_char(s[i]) + esc(Seq::<char>::empty()));
    assert(esc_char(s[i]) + Seq::<char>::empty() =~= esc_char(s[i]));
}

fn write_digit(out: &mut String, d: u64)
    requires
        d < 10,
    ensures
        final(out)@ == old(out)@.push(digit_char(d as int)),
{
    let c: char = if d == 0 {
        '0'
    } else if d == 1 {
        '1'
    } else if d == 2 {
        '2'
    } else if d == 3 {
        '3'
    } else if d == 4 {
        '4'
    } else if d == 5 {
        '5'
    } else if d == 6 {
        '6'
    } else if d == 7 {
        '7'
    } else if d == 8 {
        '8'
    } else {
        '9'
    };
    push_char(out, c);
}

fn write_u64(out: &mut String, m: u64)
    ensures
        final(out)@ == old(out)@ + dec_digits(m as int),
    decreases m,
{
    if m < 10 {
        write_digit(out, m);
        proof {
            assert(old(out)@ + dec_digits(m as int) =~= old(out)@.push(digit_char(m as int)));
        }
    } else {
        write_u64(out, m / 10);
        write_digit(out, m % 10);
        proof {
            assert(old(out)@ + dec_digits(m as int) =~= (old(out)@ + dec_digits(m as int / 10)).push(
                digit_char(m as int % 10),
            ));
        }
    }
}

fn write_hex_digit(out: &mut String, d: u32)
    requires
        d < 16,
    ensures
        final(out)@ == old(out)@.push(hex_char(d as int)),
{
    let c: char = if d == 0 {
        '0'
    } else if d == 1 {
        '1'
    } else if d == 2 {
        '2'
    } else if d == 3 {
        '3'
    } else if d == 4 {
        '4'
    } else if d == 5 {
        '5'
    } else if d == 6 {
        '6'
    } else if d == 7 {
        '7'
    } else if d == 8 {
        '8'
    } else if d == 9 {
        '9'
    } else if d == 10 {
        'a'
    } else if d == 11 {
        'b'
    } else if d == 12 {
        'c'
    } else if d == 13 {
        'd'
    } else if d == 14 {
        'e'
    } else {
        'f'
    };
    push_char(out, c);
}

/// Writes the body of a string token, escaping as [`esc`] says.
fn write_escaped(out: &mut String, s: &str)
    ensures
        final(out)@ == old(out)@ + esc(s@),
{
    let n = s.unicode_len();
    proof {
        assert(old(out)@ + esc(s@.take(0)) =~= old(out)@);
    }
    for i in 0..n
        invariant
            n == s@.len(),
            out@ == old(out)@ + esc(s@.take(i as int)),
    {
        let c = s.get_char(i);
        if c == '"' {
            push_char(out, '\\');
            push_char(out, '"');
        } else if c == '\\' {
            push_char(out, '\\');
            push_char(out, '\\');
        } else if (c as u32) < 32 {
            push_char(out, '\\');
            push_char(out, 'u');
            push_char(out, '0');
            push_char(out, '0');
            write_hex_digit(out, (c as u32) / 16);
            write_hex_digit(out, (c as u32) % 16);
        } else {
            push_char(out, c);
        }
        proof {
            lemma_esc_snoc(s@, i as int);
            assert(out@ =~= old(out)@ + esc(s@.take(i + 1)));
        }
    }
    proof {
        assert(s@.take(n as int) =~= s@);
    }
}

/// Writes a complete string token.
fn write_quoted(out: &mut String, s: &str)
    ensures
        final(out)@ == old(out)@ + enc_str(s@),
{
    push_char(out, '"');
    write_escaped(out, s);
    push_char(out, '"');
    proof {
        assert(out@ =~= old(out)@ + enc_str(s@));
    }
}

/// Unfolds the member encoding one member at a time, front to back.
proof fn lemma_enc_members_snoc(ms: Seq<(Seq<char>, ScalarV)>, i: int)
    requires
        0 <= i < ms.len(),
    ensures
        enc_members(ms.take(i + 1)) == (if i == 0 {
            enc_member(ms[0])
        } else {
            enc_members(ms.take(i)) + seq![','] + enc_member(ms[i])
        }),
{
    let cur = ms.take(i + 1);
    assert(cur.drop_last() =~= ms.take(i));
    assert(cur.last() == ms[i]);
    if i == 0 {
        assert(enc_members(cur) == enc_member(ms[0]));
    }
}

/// Unfolds the object-list encoding one object at a time, front to back.
proof fn lemma_enc_objs_snoc(ls: Seq<Seq<(Seq<char>, ScalarV)>>, i: int)
    requires
        0 <= i < ls.len(),
    ensures
        enc_objs(ls.take(i + 1)) == (if i == 0 {
            enc_obj(ls[0])
        } else {
            enc_objs(ls.take(i)) + seq![','] + enc_obj(ls[i])
        }),
{
    let cur = ls.take(i + 1);
    assert(cur.drop_last() =~= ls.take(i));
    assert(cur.last() == ls[i]);
    if i == 0 {
        assert(enc_objs(cur) == enc_obj(ls[0]));
    }
}

/// Writes a member holding a string.
fn write_text_member(out: &mut String, key: &str, val: &str)
    ensures
        final(out)@ == old(out)@ + enc_member((key@, ScalarV::Text(val@))),
{
    write_quoted(out, key);
    push_char(out, ':');
    write_quoted(out, val);
    proof {
        assert(out@ =~= old(out)@ + enc_member((key@, ScalarV::Text(val@))));
    }
}

/// Writes a member holding an optional string, absent written as `null`.
fn write_opt_member(out: &mut String, key: &str, val: &Option<String>)
    ensures
        final(out)@ == old(out)@ + enc_member(
            (key@, opt_scalar(crate::models::view_opt(*val))),
        ),
{
    write_quoted(out, key);
    push_char(out, ':');
    match val {
        Some(s) => {
            write_quoted(out, s.as_str());
        },
        None => {
            push_char(out, 'n');
            push_char(out, 'u');
            push_char(out, 'l');
            push_char(out, 'l');
        },
    }
    proof {
        assert(out@ =~= old(out)@ + enc_member((key@, opt_scalar(crate::models::view_opt(*val)))));
    }
}

/// Writes a member holding a signed count.
fn write_num_member(out: &mut String, key: &str, n: i64)
    ensures
        final(out)@ == old(out)@ + enc_member((key@, num_of_int(n as int))),
{
    write_quoted(out, key);
    push_char(out, ':');
    if n >= 0 {
        write_u64(out, n as u64);
    } else {
        push_char(out, '-');
        let mag: u64 = (-(n as i128)) as u64;
        write_u64(out, mag);
    }
    proof {
        assert(out@ =~= old(out)@ + enc_member((key@, num_of_int(n as int))));
    }
}

/// Writes a member holding an unsigned count.
fn write_size_member(out: &mut String, key: &str, m: u64)
    ensures
        final(out)@ == old(out)@ + enc_member(
            (key@, ScalarV::Num { neg: false, mag: m as int }),
        ),
{
    write_quoted(out, key);
    push_char(out, ':');
    write_u64(out, m);
    proof {
        assert(out@ =~= old(out)@ + enc_member((key@, ScalarV::Num { neg: false, mag: m as int })));
    }
}

/// Writes one link record object.
#[verifier::rlimit(100)]
fn write_link_entry(out: &mut String, e: &LinkEntry)
    ensures
        final(out)@ == old(out)@ + enc_obj(link_members(e@)),
{
    let ghost ms = link_members(e@);
    push_char(out, '{');
    write_text_member(out, "original_url", e.original_url.as_str());
    push_char(out, ',');
    write_text_member(out, "short_url", e.short_url.as_str());
    push_char(out, ',');
    write_text_member(out, "domain", e.domain.as_str());
    push_char(out, ',');
    write_text_member(out, "slug", e.slug.as_str());
    push_char(out, ',');
    write_opt_member(out, "title", &e.title);
    push_char(out, ',');
    write_num_member(out, "created_at", e.created_at);
    push_char(out, '}');
    proof {
        lemma_enc_members_snoc(ms, 0);
        lemma_enc_members_snoc(ms, 1);
        lemma_enc_members_snoc(ms, 2);
        lemma_enc_members_snoc(ms, 3);
        lemma_enc_members_snoc(ms, 4);
        lemma_enc_members_snoc(ms, 5);
        assert(ms.take(6) =~= ms);
        assert(out@ =~= old(out)@ + enc_obj(ms));
    }
}

/// Writes one text record object.
#[verifier::rlimit(100)]
fn write_text_entry(out: &mut String, e: &TextEntry)
    ensures
        final(out)@ == old(out)@ + enc_obj(text_members(e@)),
{
    let ghost ms = text_members(e@);
    push_char(out, '{');
    write_text_member(out, "url", e.url.as_str());
    push_char(out, ',');
    write_opt_member(out, "page_url", &e.page_url);
    push_char(out, ',');
    write_text_member(out, "domain", e.domain.as_str());
    push_char(out, ',');
    write_text_member(out, "slug", e.slug.as_str());
    push_char(out, ',');
    write_opt_member(out, "title", &e.title);
    push_char(out, ',');
    write_opt_member(out, "syntax", &e.syntax);
    push_char(out, ',');
    write_text_member(out, "content_preview", e.content_preview.as_str());
    push_char(out, ',');
    write_num_member(out, "created_at", e.created_at);
    push_char(out, '}');
    proof {
        lemma_enc_members_snoc(ms, 0);
        lemma_enc_members_snoc(ms, 1);
        lemma_enc_members_snoc(ms, 2);
        lemma_enc_members_snoc(ms, 3);
        lemma_enc_members_snoc(ms, 4);
        lemma_enc_members_snoc(ms, 5);
        lemma_enc_members_snoc(ms, 6);
        lemma_enc_members_snoc(ms, 7);
        assert(ms.take(8) =~= ms);
        assert(out@ =~= old(out)@ + enc_obj(ms));
    }
}

/// Writes one file record object.
#[verifier::rlimit(100)]
fn write_file_entry(out: &mut String, e: &FileEntry)
    ensures
        final(out)@ == old(out)@ + enc_obj(file_members(e@)),
{
    let ghost ms = file_members(e@);
    push_char(out, '{');
    write_text_member(out, "url", e.url.as_str());
    push_char(out, ',');
    write_opt_member(out, "page_url", &e.page_url);
    push_char(out, ',');
    write_text_member(out, "domain", e.domain.as_str());
    push_char(out, ',');
    write_text_member(out, "slug", e.slug.as_str());
    push_char(out, ',');
    write_text_member(out, "filename", e.filename.as_str());
    push_char(out, ',');
    write_size_member(out, "size", e.size);
    push_char(out, ',');
    write_opt_member(out, "mime_type", &e.mime_type);
    push_char(out, ',');
    write_num_member(out, "created_at", e.created_at);
    push_char(out, '}');
    proof {
        lemma_enc_members_snoc(ms, 0);
        lemma_enc_members_snoc(ms, 1);
        lemma_enc_members_snoc(ms, 2);
        lemma_enc_members_snoc(ms, 3);
        lemma_enc_members_snoc(ms, 4);
        lemma_enc_members_snoc(ms, 5);
        lemma_enc_members_snoc(ms, 6);
        lemma_enc_members_snoc(ms, 7);
        assert(ms.take(8) =~= ms);
        assert(out@ =~= old(out)@ + enc_obj(ms));
    }
}

/// Renders the canonical document for a ledger.
#[verifier::rlimit(100)]
pub fn encode_history(h: &History) -> (r: String)
    ensures
        r@ == json_of_history(h@),
{
    let mut out = String::new();
    push_char(&mut out, '{');
    write_quoted(&mut out, "links");
    push_char(&mut out, ':');
    push_char(&mut out, '[');
    let ghost lls = link_objs(h@.links);
    let ghost pre_links = out@;
    proof {
        assert(enc_objs(lls.take(0)) == Seq::<char>::empty());
        assert(pre_links + enc_objs(lls.take(0)) =~= pre_links);
    }
    let nl = h.links.len();
    for i in 0..nl
        invariant
            nl == h.links.len(),
            lls == link_objs(h@.links),
            lls.len() == nl,
            out@ == pre_links + enc_objs(lls.take(i as int)),
    {
        if i > 0 {
            push_char(&mut out, ',');
        }
        write_link_entry(&mut out, &h.links[i]);
        proof {
            lemma_enc_objs_snoc(lls, i as int);
            assert(h@.links[i as int] == h.links@[i as int]@);
            assert(lls[i as int] == link_members(h@.links[i as int]));
            assert(out@ =~= pre_links + enc_objs(lls.take(i + 1)));
        }
    }
    proof {
        assert(lls.take(nl as int) =~= lls);
    }
    push_char(&mut out, ']');
    push_char(&mut out, ',');
    write_quoted(&mut out, "texts");
    push_char(&mut out, ':');
    push_char(&mut out, '[');
    let ghost tls = text_objs(h@.texts);
    let ghost pre_texts = out@;
    proof {
        assert(enc_objs(tls.take(0)) == Seq::<char>::empty());
        assert(pre_texts + enc_objs(tls.take(0)) =~= pre_texts);
    }
    let nt = h.texts.len();
    for i in 0..nt
        invariant
            nt == h.texts.len(),
            tls == text_objs(h@.texts),
            tls.len() == nt,
            out@ == pre_texts + enc_objs(tls.take(i as int)),
    {
        if i > 0 {
            push_char(&mut out, ',');
        }
        write_text_entry(&mut out, &h.texts[i]);
        proof {
            lemma_enc_objs_snoc(tls, i as int);
            assert(h@.texts[i as int] == h.texts@[i as int]@);
            assert(tls[i as int] == text_members(h@.texts[i as int]));
            assert(out@ =~= pre_texts + enc_objs(tls.take(i + 1)));
        }
    }
    proof {
        assert(tls.take(nt as int) =~= tls);
    }
    push_char(&mut out, ']');
    push_char(&mut out, ',');
    write_quoted(&mut out, "files");
    push_char(&mut out, ':');
    push_char(&mut out, '[');
    let ghost fls = file_objs(h@.files);
    let ghost pre_files = out@;
    proof {
        assert(enc_objs(fls.take(0)) == Seq::<char>::empty());
        assert(pre_files + enc_objs(fls.take(0)) =~= pre_files);
    }
    let nf = h.files.len();
    for i in 0..nf
        invariant
            nf == h.files.len(),
            fls == file_objs(h@.files),
            fls.len() == nf,
            out@ == pre_files + enc_objs(fls.take(i as int)),
    {
        if i > 0 {
            push_char(&mut out, ',');
        }
        write_file_entry(&mut out, &h.files[i]);
        proof {
            lemma_enc_objs_snoc(fls, i as int);
            assert(h@.files[i as int] == h.files@[i as int]@);
            assert(fls[i as int] == file_members(h@.files[i as int]));
            assert(out@ =~= pre_files + enc_objs(fls.take(i + 1)));
        }
    }
    proof {
        assert(fls.take(nf as int) =~= fls);
    }
    push_char(&mut out, ']');
    push_char(&mut out, '}');
    proof {
        assert(out@ =~= json_of_history(h@));
    }
    out
}

// ------------------------------------------------------------------
// Reading a document back: characters and small tokens.
// ------------------------------------------------------------------

/// A fresh `Corrupt` error.
fn corrupt() -> (r: AppError)
    ensures
        r is Corrupt,
{
    AppError::Corrupt(String::from_str("malformed history document"))
}

/// The characters of a string, one by one.
fn to_chars(s: &str) -> (r: Vec<char>)
    ensures
        r@ == s@,
{
    let n = s.unicode_len();
    let mut v: Vec<char> = Vec::new();
    proof {
        assert(s@.take(0) =~= Seq::<char>::empty());
    }
    for i in 0..n
        invariant
            n == s@.len(),
            v@ == s@.take(i as int),
    {
        v.push(s.get_char(i));
        proof {
            assert(s@.take(i + 1) =~= s@.take(i as int).push(s@[i as int]));
        }
    }
    proof {
        assert(s@.take(n as int) =~= s@);
    }
    v
}

/// Whitespace between tokens.
spec fn is_ws_char(c: char) -> bool {
    c == ' ' || c == '\t' || c == '\n' || c == '\r'
}

/// A decimal digit.
spec fn is_digit_char(c: char) -> bool {
    48 <= c as u32 <= 57
}

/// The numeric value of a decimal digit character.
spec fn digit_val(c: char) -> int {
    c as u32 - 48
}

/// The numeric value a digit string denotes, most significant first.
spec fn val_of(ds: Seq<char>) -> int
    decreases ds.len(),
{
    if ds.len() == 0 {
        0
    } else {
        val_of(ds.drop_last()) * 10 + digit_val(ds.last())
    }
}

spec fn all_digits(ds: Seq<char>) -> bool {
    forall|i: int| 0 <= i < ds.len() ==> is_digit_char(#[trigger] ds[i])
}

/// The canonical digits of `m` denote `m`, are all digits, start with a
/// digit, and number at least one.
proof fn lemma_dec_digits_val(m: int)
    requires
        m >= 0,
    ensures
        val_of(dec_digits(m)) == m,
        all_digits(dec_digits(m)),
        dec_digits(m).len() >= 1,
    decreases m,
{
    if m < 10 {
        let ds = dec_digits(m);
        assert(ds == seq![digit_char(m)]);
        assert(ds.drop_last() =~= Seq::<char>::empty());
        assert(val_of(Seq::<char>::empty()) == 0);
        assert(ds.last() == digit_char(m));
        assert(digit_val(digit_char(m)) == m);
        assert(is_digit_char(digit_char(m)));
        assert(val_of(ds) == 0 * 10 + digit_val(digit_char(m)));
    } else {
        lemma_dec_digits_val(m / 10);
        let ds = dec_digits(m);
        assert(ds == dec_digits(m / 10).push(digit_char(m % 10)));
        assert(ds.drop_last() =~= dec_digits(m / 10));
        assert(ds.last() == digit_char(m % 10));
        assert(digit_val(digit_char(m % 10)) == m % 10);
        assert(is_digit_char(digit_char(m % 10)));
        assert(val_of(ds) == (m / 10) * 10 + m % 10);
        assert forall|i: int| 0 <= i < ds.len() implies is_digit_char(#[trigger] ds[i]) by {
            if i < ds.len() - 1 {
                assert(ds[i] == dec_digits(m / 10)[i]);
            }
        }
    }
}

/// A digit-string value grows along its prefixes and never turns negative.
proof fn lemma_val_of_prefix(ds: Seq<char>, j: int)
    requires
        all_digits(ds),
        0 <= j <= ds.len(),
    ensures
        0 <= val_of(ds.take(j)) <= val_of(ds),
    decreases ds.len() - j,
{
    if j == ds.len() {
        assert(ds.take(j) =~= ds);
        lemma_val_of_nonneg(ds);
    } else {
        lemma_val_of_prefix(ds, j + 1);
        lemma_val_of_nonneg(ds.take(j));
        assert(ds.take(j + 1).drop_last() =~= ds.take(j));
        assert(ds.take(j + 1).last() == ds[j]);
        assert(val_of(ds.take(j + 1)) == val_of(ds.take(j)) * 10 + digit_val(ds[j]));
        assert(is_digit_char(ds[j]));
        assert(val_of(ds.take(j)) <= val_of(ds.take(j)) * 10 + digit_val(ds[j]));
    }
}

proof fn lemma_val_of_nonneg(ds: Seq<char>)
    requires
        all_digits(ds),
    ensures
        val_of(ds) >= 0,
    decreases ds.len(),
{
    if ds.len() > 0 {
        assert(all_digits(ds.drop_last())) by {
            assert(forall|i: int|
                0 <= i < ds.len() - 1 ==> #[trigger] ds.drop_last()[i] == ds[i]);
        }
        lemma_val_of_nonneg(ds.drop_last());
        assert(is_digit_char(ds.last()));
    }
}

/// Position of the first character at or after `pos` that is not
/// whitespace, or the end.
fn skip_ws(cs: &Vec<char>, pos: usize) -> (r: usize)
    requires
        pos <= cs@.len(),
    ensures
        pos <= r <= cs@.len(),
        forall|j: int| pos <= j < r ==> is_ws_char(#[trigger] cs@[j]),
        r < cs@.len() ==> !is_ws_char(cs@[r as int]),
        (pos < cs@.len() && !is_ws_char(cs@[pos as int])) ==> r == pos,
        cs@.skip(r as int) == cs@.skip(pos as int).skip(r - pos),
{
    let n = cs.len();
    let mut p = pos;
    while p < n && (cs[p] == ' ' || cs[p] == '\t' || cs[p] == '\n' || cs[p] == '\r')
        invariant
            pos <= p <= n,
            n == cs@.len(),
            forall|j: int| pos <= j < p ==> is_ws_char(#[trigger] cs@[j]),
        decreases n - p,
    {
        p += 1;
    }
    proof {
        assert(cs@.skip(p as int) =~= cs@.skip(pos as int).skip(p - pos));
    }
    p
}

/// Relies on char::from_u32: `Some` exactly on Unicode scalar values, and
/// the character returned carries the given code.
#[verifier::external_body]
fn char_from_u32(v: u32) -> (r: Option<char>)
    ensures
        r matches Some(c) ==> c as u32 == v,
        v < 0xD800 ==> r is Some,
        forall|c: char| c as u32 == v ==> r == Some(c),
{
    char::from_u32(v)
}

/// The numeric value of a hexadecimal digit character, or -1.
spec fn hex_val_spec(c: char) -> int {
    if 48 <= c as u32 <= 57 {
        c as u32 - 48
    } else if 97 <= c as u32 <= 102 {
        c as u32 - 87
    } else if 65 <= c as u32 <= 70 {
        c as u32 - 55
    } else {
        -1
    }
}

fn hex_val(c: char) -> (r: Option<u32>)
    ensures
        hex_val_spec(c) >= 0 ==> r == Some(hex_val_spec(c) as u32),
        hex_val_spec(c) < 0 ==> r is None,
        r matches Some(d) ==> d < 16,
{
    let u = c as u32;
    if 48 <= u && u <= 57 {
        Some(u - 48)
    } else if 97 <= u && u <= 102 {
        Some(u - 87)
    } else if 65 <= u && u <= 70 {
        Some(u - 55)
    } else {
        None
    }
}

/// The canonical hexadecimal digit characters read back as themselves.
proof fn lemma_hex_char_val(d: int)
    requires
        0 <= d < 16,
    ensures
        hex_val_spec(hex_char(d)) == d,
{
}

/// Unfolds the string-token body one source character at a time.
proof fn lemma_esc_unfold(v: Seq<char>, j: int)
    requires
        0 <= j < v.len(),
    ensures
        esc(v.skip(j)) == esc_char(v[j]) + esc(v.skip(j + 1)),
{
    assert(v.skip(j).len() > 0);
    assert(v.skip(j)[0] == v[j]);
    assert(v.skip(j).skip(1) =~= v.skip(j + 1));
}

/// What stands at the read position inside a string token: the closing
/// quote when the source is spent, else the escape of the next character.
proof fn lemma_string_head(cs: Seq<char>, p: int, j: int, v: Seq<char>, rest: Seq<char>)
    requires
        0 <= p <= cs.len(),
        0 <= j <= v.len(),
        cs.skip(p) == esc(v.skip(j)) + seq!['"'] + rest,
    ensures
        cs.len() - p >= 1,
        j == v.len() ==> cs[p] == '"' && cs.skip(p + 1) == rest,
        j < v.len() ==> cs.skip(p) == esc_char(v[j]) + (esc(v.skip(j + 1)) + seq!['"'] + rest),
        j < v.len() ==> cs[p] == esc_char(v[j])[0],
        j < v.len() ==> p + esc_char(v[j]).len() <= cs.len(),
{
    if j == v.len() {
        assert(v.skip(j) =~= Seq::<char>::empty());
        assert(esc(Seq::<char>::empty()) == Seq::<char>::empty());
        assert(cs.skip(p) =~= seq!['"'] + rest);
        assert(cs.skip(p)[0] == cs[p]);
        assert(cs.skip(p + 1) =~= cs.skip(p).skip(1));
        assert(cs.skip(p).skip(1) =~= rest);
    } else {
        lemma_esc_unfold(v, j);
        assert(cs.skip(p) =~= esc_char(v[j]) + (esc(v.skip(j + 1)) + seq!['"'] + rest));
        assert(esc_char(v[j]).len() >= 1);
        assert(cs.skip(p)[0] == cs[p]);
        assert(cs.skip(p)[0] == esc_char(v[j])[0]);
    }
}

/// Two characters with the same code are the same character.
proof fn lemma_char_code_eq(a: char, b: char)
    requires
        a as u32 == b as u32,
    ensures
        a == b,
{
}

/// What stands at the read position when an escape begins.
proof fn lemma_string_escape(cs: Seq<char>, p: int, j: int, v: Seq<char>, rest: Seq<char>)
    requires
        0 <= p < cs.len(),
        0 <= j <= v.len(),
        cs.skip(p) == esc(v.skip(j)) + seq!['"'] + rest,
        cs[p] == '\\',
    ensures
        j < v.len(),
        v[j] == '"' || v[j] == '\\' || (v[j] as u32) < 32,
        v[j] == '"' ==> esc_char(v[j]) == seq!['\\', '"'],
        v[j] == '\\' ==> esc_char(v[j]) == seq!['\\', '\\'],
        (v[j] as u32) < 32 ==> esc_char(v[j]) == seq!['\\', 'u', '0', '0', hex_char(
            v[j] as u32 as int / 16,
        ), hex_char(v[j] as u32 as int % 16)],
        p + esc_char(v[j]).len() <= cs.len(),
        cs[p + 1] == esc_char(v[j])[1],
        (v[j] as u32) < 32 ==> cs[p + 2] == '0' && cs[p + 3] == '0' && cs[p + 4] == hex_char(
            v[j] as u32 as int / 16,
        ) && cs[p + 5] == hex_char(v[j] as u32 as int % 16) && hex_val_spec(cs[p + 4]) == v[j]
            as u32 as int / 16 && hex_val_spec(cs[p + 5]) == v[j] as u32 as int % 16,
        cs.skip(p) == esc_char(v[j]) + (esc(v.skip(j + 1)) + seq!['"'] + rest),
{
    lemma_string_head(cs, p, j, v, rest);
    if j == v.len() {
        assert(cs[p] == '"');
        assert(false);
    }
    let ec = esc_char(v[j]);
    assert(cs[p] == ec[0]);
    assert(v[j] == '"' || v[j] == '\\' || (v[j] as u32) < 32) by {
        if v[j] != '"' && v[j] != '\\' && (v[j] as u32) >= 32 {
            assert(ec == seq![v[j]]);
            assert(ec[0] == v[j]);
        }
    }
    let tail = esc(v.skip(j + 1)) + seq!['"'] + rest;
    assert(ec.len() >= 2);
    assert(cs.skip(p)[1] == cs[p + 1]);
    assert((ec + tail)[1] == ec[1]);
    if (v[j] as u32) < 32 {
        let u = v[j] as u32 as int;
        assert(ec.len() == 6);
        assert(cs.skip(p)[2] == cs[p + 2]);
        assert(cs.skip(p)[3] == cs[p + 3]);
        assert(cs.skip(p)[4] == cs[p + 4]);
        assert(cs.skip(p)[5] == cs[p + 5]);
        assert((ec + tail)[2] == ec[2]);
        assert((ec + tail)[3] == ec[3]);
        assert((ec + tail)[4] == ec[4]);
        assert((ec + tail)[5] == ec[5]);
        assert(0 <= u / 16 < 16);
        assert(0 <= u % 16 < 16);
        lemma_hex_char_val(u / 16);
        lemma_hex_char_val(u % 16);
    }
}

/// Reads one string token, unescaping as it goes.
#[verifier::rlimit(100)]
fn parse_string(cs: &Vec<char>, pos: usize) -> (r: Result<(String, usize), AppError>)
    requires
        pos <= cs@.len(),
    ensures
        r matches Ok((s, p)) ==> pos < p <= cs@.len(),
        r matches Err(e) ==> e is Corrupt,
        forall|v: Seq<char>, rest: Seq<char>|
            cs@.skip(pos as int) == #[trigger] (enc_str(v) + rest) ==> (r matches Ok((s, p))
                && s@ == v && cs@.skip(p as int) == rest),
{
    let n = cs.len();
    if pos >= n || cs[pos] != '"' {
        proof {
            assert forall|v: Seq<char>, rest: Seq<char>|
                cs@.skip(pos as int) == #[trigger] (enc_str(v) + rest) implies false by {
                assert(cs@.skip(pos as int).len() >= 2);
                assert(cs@.skip(pos as int)[0] == '"');
                assert(cs@.skip(pos as int)[0] == cs@[pos as int]);
            }
        }
        return Err(corrupt());
    }
    let ghost h0 = cs@.skip(pos as int);
    let mut p = pos + 1;
    let mut out = String::new();
    proof {
        assert forall|v: Seq<char>, rest: Seq<char>|
            h0 == #[trigger] (enc_str(v) + rest) implies (out@.len() <= v.len() && out@ == v.take(
            out@.len() as int,
        ) && cs@.skip(p as int) == esc(v.skip(out@.len() as int)) + seq!['"'] + rest) by {
            assert(v.take(0) =~= Seq::<char>::empty());
            assert(v.skip(0) =~= v);
            assert(cs@.skip(p as int) =~= cs@.skip(pos as int).skip(1));
            assert((enc_str(v) + rest).skip(1) =~= esc(v) + seq!['"'] + rest);
        }
    }
    loop
        invariant
            pos < p <= n,
            n == cs@.len(),
            h0 == cs@.skip(pos as int),
            forall|v: Seq<char>, rest: Seq<char>|
                h0 == #[trigger] (enc_str(v) + rest) ==> (out@.len() <= v.len() && out@ == v.take(
                    out@.len() as int,
                ) && cs@.skip(p as int) == esc(v.skip(out@.len() as int)) + seq!['"'] + rest),
        decreases n - p,
    {
        if p >= n {
            proof {
                assert forall|v: Seq<char>, rest: Seq<char>|
                    h0 == #[trigger] (enc_str(v) + rest) implies false by {
                    lemma_string_head(cs@, p as int, out@.len() as int, v, rest);
                }
            }
            return Err(corrupt());
        }
        let c = cs[p];
        if c == '"' {
            let ghost j = out@.len() as int;
            proof {
                assert forall|v: Seq<char>, rest: Seq<char>|
                    h0 == #[trigger] (enc_str(v) + rest) implies (out@ == v && cs@.skip(
                    p as int + 1,
                ) == rest) by {
                    lemma_string_head(cs@, p as int, j, v, rest);
                    if j < v.len() {
                        assert(esc_char(v[j])[0] != '"');
                    }
                    assert(out@ == v.take(v.len() as int));
                    assert(v.take(v.len() as int) =~= v);
                }
            }
            return Ok((out, p + 1));
        } else if c == '\\' {
            if n - p < 2 {
                proof {
                    assert forall|v: Seq<char>, rest: Seq<char>|
                        h0 == #[trigger] (enc_str(v) + rest) implies false by {
                        lemma_string_escape(cs@, p as int, out@.len() as int, v, rest);
                    }
                }
                return Err(corrupt());
            }
            let e = cs[p + 1];
            let ghost old_out = out@;
            let ghost old_p = p as int;
            let unescaped: char;
            let consumed: usize;
            if e == '"' {
                unescaped = '"';
                consumed = 2;
            } else if e == '\\' {
                unescaped = '\\';
                consumed = 2;
            } else if e == '/' {
                unescaped = '/';
                consumed = 2;
            } else if e == 'n' {
                unescaped = '\n';
                consumed = 2;
            } else if e == 't' {
                unescaped = '\t';
                consumed = 2;
            } else if e == 'r' {
                unescaped = '\r';
                consumed = 2;
            } else if e == 'b' {
                unescaped = '\u{8}';
                consumed = 2;
            } else if e == 'f' {
                unescaped = '\u{c}';
                consumed = 2;
            } else if e == 'u' {
                if n - p < 6 {
                    proof {
                        assert forall|v: Seq<char>, rest: Seq<char>|
                            h0 == #[trigger] (enc_str(v) + rest) implies false by {
                            lemma_string_escape(cs@, p as int, old_out.len() as int, v, rest);
                        }
                    }
                    return Err(corrupt());
                }
                let h3 = hex_val(cs[p + 2]);
                let h2 = hex_val(cs[p + 3]);
                let h1 = hex_val(cs[p + 4]);
                let h0v = hex_val(cs[p + 5]);
                let (d3, d2, d1, d0) = match (h3, h2, h1, h0v) {
                    (Some(a), Some(b), Some(cc), Some(d)) => (a, b, cc, d),
                    _ => {
                        proof {
                            assert forall|v: Seq<char>, rest: Seq<char>|
                                h0 == #[trigger] (enc_str(v) + rest) implies false by {
                                lemma_string_escape(cs@, p as int, old_out.len() as int, v, rest);
                            }
                        }
                        return Err(corrupt());
                    },
                };
                let code: u32 = d3 * 4096 + d2 * 256 + d1 * 16 + d0;
                match char_from_u32(code) {
                    Some(c2) => {
                        unescaped = c2;
                        consumed = 6;
                    },
                    None => {
                        proof {
                            assert forall|v: Seq<char>, rest: Seq<char>|
                                h0 == #[trigger] (enc_str(v) + rest) implies false by {
                                lemma_string_escape(cs@, p as int, old_out.len() as int, v, rest);
                                let j = old_out.len() as int;
                                let u = v[j] as u32;
                                assert(code == u);
                            }
                        }
                        return Err(corrupt());
                    },
                }
            } else {
                proof {
                    assert forall|v: Seq<char>, rest: Seq<char>|
                        h0 == #[trigger] (enc_str(v) + rest) implies false by {
                        lemma_string_escape(cs@, p as int, old_out.len() as int, v, rest);
                        let j = old_out.len() as int;
                        assert(cs@[p + 1] == esc_char(v[j])[1]);
                    }
                }
                return Err(corrupt());
            }
            push_char(&mut out, unescaped);
            p += consumed;
            proof {
                assert forall|v: Seq<char>, rest: Seq<char>|
                    h0 == #[trigger] (enc_str(v) + rest) implies (out@.len() <= v.len() && out@
                    == v.take(out@.len() as int) && cs@.skip(p as int) == esc(
                    v.skip(out@.len() as int),
                ) + seq!['"'] + rest) by {
                    let j = old_out.len() as int;
                    lemma_string_escape(cs@, old_p, j, v, rest);
                    let ec = esc_char(v[j]);
                    assert(ec[1] == cs@[old_p + 1]);
                    if v[j] == '"' {
                        assert(unescaped == v[j] && consumed == 2 && ec.len() == 2);
                    } else if v[j] == '\\' {
                        assert(unescaped == v[j] && consumed == 2 && ec.len() == 2);
                    } else {
                        let u = v[j] as u32;
                        assert(cs@[old_p + 1] == 'u');
                        assert(unescaped as u32 == u);
                        lemma_char_code_eq(unescaped, v[j]);
                        assert(unescaped == v[j]);
                        assert(consumed == 6 && ec.len() == 6);
                    }
                    assert(out@ == v.take(j).push(v[j]));
                    assert(v.take(j + 1) =~= v.take(j).push(v[j]));
                    assert(cs@.skip(p as int) =~= cs@.skip(old_p).skip(consumed as int));
                    assert((ec + (esc(v.skip(j + 1)) + seq!['"'] + rest)).skip(ec.len() as int)
                        =~= esc(v.skip(j + 1)) + seq!['"'] + rest);
                }
            }
        } else {
            let ghost old_p = p as int;
            let ghost old_out = out@;
            push_char(&mut out, c);
            p += 1;
            proof {
                assert forall|v: Seq<char>, rest: Seq<char>|
                    h0 == #[trigger] (enc_str(v) + rest) implies (out@.len() <= v.len() && out@
                    == v.take(out@.len() as int) && cs@.skip(p as int) == esc(
                    v.skip(out@.len() as int),
                ) + seq!['"'] + rest) by {
                    let j = old_out.len() as int;
                    lemma_string_head(cs@, old_p, j, v, rest);
                    assert(j < v.len());
                    let ec = esc_char(v[j]);
                    assert(ec[0] == c);
                    assert(v[j] == c && ec.len() == 1);
                    assert(out@ == v.take(j).push(v[j]));
                    assert(v.take(j + 1) =~= v.take(j).push(v[j]));
                    assert(cs@.skip(p as int) =~= cs@.skip(old_p).skip(1));
                    assert((ec + (esc(v.skip(j + 1)) + seq!['"'] + rest)).skip(1) =~= esc(
                        v.skip(j + 1),
                    ) + seq!['"'] + rest);
                }
            }
        }
    }
}


/// The canonical shape of a number token next to its continuation.
spec fn num_hyp(suffix: Seq<char>, neg: bool, mag: int, rest: Seq<char>) -> bool {
    &&& suffix == enc_num(neg, mag) + rest
    &&& 0 <= mag <= u64::MAX
    &&& neg ==> mag > 0
    &&& rest.len() == 0 || !is_digit_char(rest[0])
}

/// Reads one number token: an optional sign and a run of digits.
#[verifier::rlimit(100)]
fn parse_number(cs: &Vec<char>, pos: usize) -> (r: Result<((bool, u64), usize), AppError>)
    requires
        pos <= cs@.len(),
    ensures
        r matches Ok((nv, p)) ==> pos < p <= cs@.len(),
        r matches Err(e) ==> e is Corrupt,
        forall|neg: bool, mag: int, rest: Seq<char>|
            #[trigger] num_hyp(cs@.skip(pos as int), neg, mag, rest) ==> (r matches Ok(((n2, m2), p))
                && n2 == neg && m2 as int == mag && cs@.skip(p as int) == rest),
{
    let n = cs.len();
    let mut p = pos;
    let mut sign = false;
    if p < n && cs[p] == '-' {
        sign = true;
        p += 1;
    }
    proof {
        assert forall|neg: bool, mag: int, rest: Seq<char>|
            #[trigger] num_hyp(cs@.skip(pos as int), neg, mag, rest) implies (sign == neg && cs@.skip(
            p as int,
        ) == dec_digits(mag) + rest) by {
            lemma_dec_digits_val(mag);
            assert(cs@.skip(pos as int).len() >= 1);
            assert(cs@.skip(pos as int)[0] == cs@[pos as int]);
            if neg {
                assert((seq!['-'] + dec_digits(mag) + rest)[0] == '-');
                assert(cs@[pos as int] == '-');
                assert(cs@.skip(pos as int).skip(1) =~= cs@.skip(pos as int + 1));
                assert((seq!['-'] + dec_digits(mag) + rest).skip(1) =~= dec_digits(mag) + rest);
            } else {
                assert((dec_digits(mag) + rest)[0] == dec_digits(mag)[0]);
                assert(is_digit_char(dec_digits(mag)[0]));
                assert(cs@[pos as int] != '-');
            }
        }
    }
    if p >= n || !(48 <= cs[p] as u32 && cs[p] as u32 <= 57) {
        proof {
            assert forall|neg: bool, mag: int, rest: Seq<char>|
                #[trigger] num_hyp(cs@.skip(pos as int), neg, mag, rest) implies false by {
                lemma_dec_digits_val(mag);
                assert(cs@.skip(p as int).len() >= 1);
                assert(cs@.skip(p as int)[0] == cs@[p as int]);
                assert((dec_digits(mag) + rest)[0] == dec_digits(mag)[0]);
                assert(is_digit_char(dec_digits(mag)[0]));
            }
        }
        return Err(corrupt());
    }
    let ghost dstart = p as int;
    let mut acc: u64 = 0;
    let mut overflowed = false;
    while p < n && 48 <= cs[p] as u32 && cs[p] as u32 <= 57 && !overflowed
        invariant
            pos <= dstart <= p <= n,
            n == cs@.len(),
            dstart < n,
            is_digit_char(cs@[dstart]),
            !overflowed ==> forall|neg: bool, mag: int, rest: Seq<char>|
                #[trigger] num_hyp(cs@.skip(pos as int), neg, mag, rest) ==> (sign == neg
                    && p - dstart <= dec_digits(mag).len() && acc as int == val_of(
                    dec_digits(mag).take(p - dstart),
                ) && cs@.skip(p as int) == dec_digits(mag).skip(p - dstart) + rest),
            overflowed ==> forall|neg: bool, mag: int, rest: Seq<char>|
                !#[trigger] num_hyp(cs@.skip(pos as int), neg, mag, rest),
        decreases n - p, (if overflowed { 0int } else { 1int }),
    {
        let d: u32 = cs[p] as u32 - 48;
        let step = match acc.checked_mul(10) {
            Some(x) => x.checked_add(d as u64),
            None => None,
        };
        match step {
            Some(x) => {
                proof {
                    assert forall|neg: bool, mag: int, rest: Seq<char>|
                        #[trigger] num_hyp(cs@.skip(pos as int), neg, mag, rest) implies (p + 1
                        - dstart <= dec_digits(mag).len() && x as int == val_of(
                        dec_digits(mag).take(p + 1 - dstart),
                    ) && cs@.skip(p as int + 1) == dec_digits(mag).skip(p + 1 - dstart) + rest) by {
                        lemma_dec_digits_val(mag);
                        let dd = dec_digits(mag);
                        let j = p - dstart;
                        assert(cs@.skip(p as int).len() >= 1);
                        assert(cs@.skip(p as int)[0] == cs@[p as int]);
                        if j == dd.len() {
                            assert(dd.skip(j) =~= Seq::<char>::empty());
                            assert(dd.skip(j) + rest =~= rest);
                            assert(rest[0] == cs@[p as int]);
                            assert(is_digit_char(cs@[p as int]));
                            assert(false);
                        }
                        assert((dd.skip(j) + rest)[0] == dd.skip(j)[0]);
                        assert(dd.skip(j)[0] == dd[j]);
                        assert(digit_val(dd[j]) == d as int);
                        assert(dd.take(j + 1).drop_last() =~= dd.take(j));
                        assert(dd.take(j + 1).last() == dd[j]);
                        assert(val_of(dd.take(j + 1)) == val_of(dd.take(j)) * 10 + digit_val(dd[j]));
                        assert(cs@.skip(p as int + 1) =~= cs@.skip(p as int).skip(1));
                        assert((dd.skip(j) + rest).skip(1) =~= dd.skip(j + 1) + rest);
                    }
                }
                acc = x;
                p += 1;
            },
            None => {
                proof {
                    assert forall|neg: bool, mag: int, rest: Seq<char>|
                        !#[trigger] num_hyp(cs@.skip(pos as int), neg, mag, rest) by {
                        if num_hyp(cs@.skip(pos as int), neg, mag, rest) {
                            lemma_dec_digits_val(mag);
                            let dd = dec_digits(mag);
                            let j = p - dstart;
                            assert(cs@.skip(p as int).len() >= 1);
                            assert(cs@.skip(p as int)[0] == cs@[p as int]);
                            if j == dd.len() {
                                assert(dd.skip(j) =~= Seq::<char>::empty());
                                assert(dd.skip(j) + rest =~= rest);
                                assert(rest[0] == cs@[p as int]);
                                assert(is_digit_char(cs@[p as int]));
                                assert(false);
                            }
                            assert((dd.skip(j) + rest)[0] == dd.skip(j)[0]);
                            assert(dd.skip(j)[0] == dd[j]);
                            assert(digit_val(dd[j]) == d as int);
                            assert(dd.take(j + 1).drop_last() =~= dd.take(j));
                            assert(dd.take(j + 1).last() == dd[j]);
                            assert(val_of(dd.take(j + 1)) == val_of(dd.take(j)) * 10 + digit_val(
                                dd[j],
                            ));
                            lemma_val_of_prefix(dd, j + 1);
                            lemma_val_of_prefix(dd, j);
                            assert(val_of(dd.take(j + 1)) <= mag);
                            assert(false);
                        }
                    }
                }
                overflowed = true;
            },
        }
    }
    if overflowed {
        return Err(corrupt());
    }
    proof {
        assert(p > dstart) by {
            if p == dstart {
                assert(is_digit_char(cs@[p as int]));
            }
        }
    }
    proof {
        assert forall|neg: bool, mag: int, rest: Seq<char>|
            #[trigger] num_hyp(cs@.skip(pos as int), neg, mag, rest) implies (sign == neg && acc
            as int == mag && cs@.skip(p as int) == rest) by {
            lemma_dec_digits_val(mag);
            let dd = dec_digits(mag);
            let j = p - dstart;
            if j < dd.len() {
                assert(cs@.skip(p as int).len() >= 1);
                assert(cs@.skip(p as int)[0] == cs@[p as int]);
                assert((dd.skip(j) + rest)[0] == dd.skip(j)[0]);
                assert(dd.skip(j)[0] == dd[j]);
                assert(is_digit_char(dd[j]));
                assert(false);
            }
            assert(dd.take(j) =~= dd);
            assert(dd.skip(j) =~= Seq::<char>::empty());
            assert(dd.skip(j) + rest =~= rest);
        }
    }
    Ok(((sign, acc), p))
}

/// The canonical shape of a `null` token next to its continuation.
spec fn null_hyp(suffix: Seq<char>, rest: Seq<char>) -> bool {
    suffix == seq!['n', 'u', 'l', 'l'] + rest
}

/// Reads the token `null`.
fn parse_null(cs: &Vec<char>, pos: usize) -> (r: Result<usize, AppError>)
    requires
        pos <= cs@.len(),
    ensures
        r matches Ok(p) ==> pos < p <= cs@.len(),
        r matches Err(e) ==> e is Corrupt,
        forall|rest: Seq<char>|
            #[trigger] null_hyp(cs@.skip(pos as int), rest) ==> (r matches Ok(p) && cs@.skip(
                p as int,
            ) == rest),
{
    let n = cs.len();
    let ok = n - pos >= 4 && cs[pos] == 'n' && cs[pos + 1] == 'u' && cs[pos + 2] == 'l' && cs[pos
        + 3] == 'l';
    if ok {
        proof {
            assert forall|rest: Seq<char>|
                #[trigger] null_hyp(cs@.skip(pos as int), rest) implies cs@.skip(pos as int + 4)
                == rest by {
                assert(cs@.skip(pos as int + 4) =~= cs@.skip(pos as int).skip(4));
                assert((seq!['n', 'u', 'l', 'l'] + rest).skip(4) =~= rest);
            }
        }
        Ok(pos + 4)
    } else {
        proof {
            assert forall|rest: Seq<char>|
                #[trigger] null_hyp(cs@.skip(pos as int), rest) implies false by {
                let sfx = cs@.skip(pos as int);
                assert(sfx.len() == n - pos);
                assert(sfx[0] == cs@[pos as int]);
                assert(sfx[1] == cs@[pos as int + 1]);
                assert(sfx[2] == cs@[pos as int + 2]);
                assert(sfx[3] == cs@[pos as int + 3]);
            }
        }
        Err(corrupt())
    }
}

/// The canonical shape of a scalar next to its continuation.
spec fn scalar_hyp(suffix: Seq<char>, v: ScalarV, rest: Seq<char>) -> bool {
    &&& suffix == enc_scalar(v) + rest
    &&& wf_scalar(v)
    &&& v is Num ==> rest.len() == 0 || !is_digit_char(rest[0])
}

/// The first character of a scalar names its kind.
proof fn lemma_enc_scalar_head(v: ScalarV)
    requires
        wf_scalar(v),
    ensures
        enc_scalar(v).len() >= 1,
        v is Null ==> enc_scalar(v)[0] == 'n',
        v is Text ==> enc_scalar(v)[0] == '"',
        (v matches ScalarV::Num { neg, .. } && neg) ==> enc_scalar(v)[0] == '-',
        (v matches ScalarV::Num { neg, .. } && !neg) ==> is_digit_char(enc_scalar(v)[0]),
{
    match v {
        ScalarV::Null => {},
        ScalarV::Text(s) => {
            assert(enc_scalar(v)[0] == '"');
        },
        ScalarV::Num { neg, mag } => {
            lemma_dec_digits_val(mag);
            if neg {
                assert(enc_scalar(v)[0] == '-');
            } else {
                assert(enc_scalar(v)[0] == dec_digits(mag)[0]);
            }
        },
    }
}

/// Reads one scalar value.
#[verifier::rlimit(100)]
fn parse_scalar(cs: &Vec<char>, pos: usize) -> (r: Result<(Scalar, usize), AppError>)
    requires
        pos <= cs@.len(),
    ensures
        r matches Ok((sc, p)) ==> pos < p <= cs@.len(),
        r matches Err(e) ==> e is Corrupt,
        forall|v: ScalarV, rest: Seq<char>|
            #[trigger] scalar_hyp(cs@.skip(pos as int), v, rest) ==> (r matches Ok((sc, p)) && sc@
                == v && cs@.skip(p as int) == rest),
{
    let n = cs.len();
    if pos >= n {
        proof {
            assert forall|v: ScalarV, rest: Seq<char>|
                #[trigger] scalar_hyp(cs@.skip(pos as int), v, rest) implies false by {
                lemma_enc_scalar_head(v);
                assert(cs@.skip(pos as int).len() == cs@.len() - pos);
                assert((enc_scalar(v) + rest).len() >= 1);
            }
        }
        return Err(corrupt());
    }
    let c = cs[pos];
    proof {
        assert(cs@.skip(pos as int)[0] == cs@[pos as int]);
    }
    if c == '"' {
        match parse_string(cs, pos) {
            Ok((s, p)) => {
                let out = Scalar::Text(s);
                proof {
                    assert forall|v: ScalarV, rest: Seq<char>|
                        #[trigger] scalar_hyp(cs@.skip(pos as int), v, rest) implies (out@ == v
                        && cs@.skip(p as int) == rest) by {
                        lemma_enc_scalar_head(v);
                        assert((enc_scalar(v) + rest)[0] == enc_scalar(v)[0]);
                        assert(v is Text);
                        let sv = v->Text_0;
                        assert(cs@.skip(pos as int) == enc_str(sv) + rest);
                    }
                }
                Ok((out, p))
            },
            Err(e) => {
                proof {
                    assert forall|v: ScalarV, rest: Seq<char>|
                        #[trigger] scalar_hyp(cs@.skip(pos as int), v, rest) implies false by {
                        lemma_enc_scalar_head(v);
                        assert((enc_scalar(v) + rest)[0] == enc_scalar(v)[0]);
                        assert(v is Text);
                        let sv = v->Text_0;
                        assert(cs@.skip(pos as int) == enc_str(sv) + rest);
                    }
                }
                Err(e)
            },
        }
    } else if c == 'n' {
        match parse_null(cs, pos) {
            Ok(p) => {
                let out = Scalar::Null;
                proof {
                    assert forall|v: ScalarV, rest: Seq<char>|
                        #[trigger] scalar_hyp(cs@.skip(pos as int), v, rest) implies (out@ == v
                        && cs@.skip(p as int) == rest) by {
                        lemma_enc_scalar_head(v);
                        assert((enc_scalar(v) + rest)[0] == enc_scalar(v)[0]);
                        assert(v is Null);
                        assert(null_hyp(cs@.skip(pos as int), rest));
                    }
                }
                Ok((out, p))
            },
            Err(e) => {
                proof {
                    assert forall|v: ScalarV, rest: Seq<char>|
                        #[trigger] scalar_hyp(cs@.skip(pos as int), v, rest) implies false by {
                        lemma_enc_scalar_head(v);
                        assert((enc_scalar(v) + rest)[0] == enc_scalar(v)[0]);
                        assert(v is Null);
                        assert(null_hyp(cs@.skip(pos as int), rest));
                    }
                }
                Err(e)
            },
        }
    } else if c == '-' || (48 <= c as u32 && c as u32 <= 57) {
        match parse_number(cs, pos) {
            Ok(((sign, mag), p)) => {
                let out = Scalar::Num { neg: sign, mag };
                proof {
                    assert forall|v: ScalarV, rest: Seq<char>|
                        #[trigger] scalar_hyp(cs@.skip(pos as int), v, rest) implies (out@ == v
                        && cs@.skip(p as int) == rest) by {
                        lemma_enc_scalar_head(v);
                        assert((enc_scalar(v) + rest)[0] == enc_scalar(v)[0]);
                        assert(v is Num);
                        assert(num_hyp(cs@.skip(pos as int), v->Num_neg, v->Num_mag, rest));
                    }
                }
                Ok((out, p))
            },
            Err(e) => {
                proof {
                    assert forall|v: ScalarV, rest: Seq<char>|
                        #[trigger] scalar_hyp(cs@.skip(pos as int), v, rest) implies false by {
                        lemma_enc_scalar_head(v);
                        assert((enc_scalar(v) + rest)[0] == enc_scalar(v)[0]);
                        assert(v is Num);
                        assert(num_hyp(cs@.skip(pos as int), v->Num_neg, v->Num_mag, rest));
                    }
                }
                Err(e)
            },
        }
    } else {
        proof {
            assert forall|v: ScalarV, rest: Seq<char>|
                #[trigger] scalar_hyp(cs@.skip(pos as int), v, rest) implies false by {
                lemma_enc_scalar_head(v);
                assert((enc_scalar(v) + rest)[0] == enc_scalar(v)[0]);
            }
        }
        Err(corrupt())
    }
}

/// Every member value could be held by a machine.
spec fn wf_members(ms: Seq<(Seq<char>, ScalarV)>) -> bool {
    forall|i: int| 0 <= i < ms.len() ==> wf_scalar((#[trigger] ms[i]).1)
}

/// Every record's members could be held by a machine.
spec fn wf_objs(ls: Seq<Seq<(Seq<char>, ScalarV)>>) -> bool {
    forall|i: int| 0 <= i < ls.len() ==> wf_members(#[trigger] ls[i])
}

/// The member list a parsed pair list stands for.
spec fn members_view(l: Seq<(String, Scalar)>) -> Seq<(Seq<char>, ScalarV)> {
    Seq::new(l.len(), |i: int| (l[i].0@, l[i].1@))
}

/// The record list a parsed list of pair lists stands for.
spec fn objs_view(l: Seq<Vec<(String, Scalar)>>) -> Seq<Seq<(Seq<char>, ScalarV)>> {
    Seq::new(l.len(), |i: int| members_view(l[i]@))
}

/// Unfolds the member encoding from the front.
proof fn lemma_enc_members_cons(ms: Seq<(Seq<char>, ScalarV)>)
    requires
        ms.len() >= 1,
    ensures
        ms.len() == 1 ==> enc_members(ms) == enc_member(ms[0]),
        ms.len() >= 2 ==> enc_members(ms) == enc_member(ms[0]) + (seq![','] + enc_members(
            ms.skip(1),
        )),
    decreases ms.len(),
{
    if ms.len() >= 2 {
        let dl = ms.drop_last();
        lemma_enc_members_cons(dl);
        let tail = ms.skip(1);
        assert(ms.last() == ms[ms.len() - 1]);
        if ms.len() == 2 {
            assert(dl.len() == 1);
            assert(dl[0] == ms[0]);
            assert(enc_members(dl) == enc_member(ms[0]));
            assert(tail.len() == 1);
            assert(tail[0] == ms[1]);
            assert(enc_members(tail) == enc_member(ms[1]));
            assert(enc_member(ms[0]) + seq![','] + enc_member(ms[1]) =~= enc_member(ms[0]) + (
            seq![','] + enc_member(ms[1])));
        } else {
            assert(dl.len() >= 2);
            assert(dl[0] == ms[0]);
            assert(tail.len() >= 2);
            assert(tail.drop_last() =~= dl.skip(1));
            assert(tail.last() == ms.last());
            assert(enc_members(tail) == enc_members(dl.skip(1)) + seq![','] + enc_member(ms.last()));
            assert((enc_member(ms[0]) + (seq![','] + enc_members(dl.skip(1)))) + seq![',']
                + enc_member(ms.last()) =~= enc_member(ms[0]) + (seq![','] + (enc_members(
                dl.skip(1),
            ) + seq![','] + enc_member(ms.last()))));
        }
    }
}

/// Unfolds the object-list encoding from the front.
proof fn lemma_enc_objs_cons(ls: Seq<Seq<(Seq<char>, ScalarV)>>)
    requires
        ls.len() >= 1,
    ensures
        ls.len() == 1 ==> enc_objs(ls) == enc_obj(ls[0]),
        ls.len() >= 2 ==> enc_objs(ls) == enc_obj(ls[0]) + (seq![','] + enc_objs(ls.skip(1))),
    decreases ls.len(),
{
    if ls.len() >= 2 {
        let dl = ls.drop_last();
        lemma_enc_objs_cons(dl);
        let tail = ls.skip(1);
        assert(ls.last() == ls[ls.len() - 1]);
        if ls.len() == 2 {
            assert(dl.len() == 1);
            assert(dl[0] == ls[0]);
            assert(enc_objs(dl) == enc_obj(ls[0]));
            assert(tail.len() == 1);
            assert(tail[0] == ls[1]);
            assert(enc_objs(tail) == enc_obj(ls[1]));
            assert(enc_obj(ls[0]) + seq![','] + enc_obj(ls[1]) =~= enc_obj(ls[0]) + (seq![',']
                + enc_obj(ls[1])));
        } else {
            assert(dl.len() >= 2);
            assert(dl[0] == ls[0]);
            assert(tail.len() >= 2);
            assert(tail.drop_last() =~= dl.skip(1));
            assert(tail.last() == ls.last());
            assert(enc_objs(tail) == enc_objs(dl.skip(1)) + seq![','] + enc_obj(ls.last()));
            assert((enc_obj(ls[0]) + (seq![','] + enc_objs(dl.skip(1)))) + seq![','] + enc_obj(
                ls.last(),
            ) =~= enc_obj(ls[0]) + (seq![','] + (enc_objs(dl.skip(1)) + seq![','] + enc_obj(
                ls.last(),
            ))));
        }
    }
}

/// The canonical shape of a record object next to its continuation.
spec fn obj_hyp(suffix: Seq<char>, ms: Seq<(Seq<char>, ScalarV)>, rest: Seq<char>) -> bool {
    &&& suffix == enc_obj(ms) + rest
    &&& wf_members(ms)
}

/// Reads one record object into its list of `(key, value)` pairs, in
/// source order, fields in any order, whitespace anywhere between tokens.
#[verifier::rlimit(100)]
fn parse_obj(cs: &Vec<char>, pos: usize) -> (r: Result<(Vec<(String, Scalar)>, usize), AppError>)
    requires
        pos <= cs@.len(),
    ensures
        r matches Ok((lst, p)) ==> pos < p <= cs@.len(),
        r matches Err(e) ==> e is Corrupt,
        forall|ms: Seq<(Seq<char>, ScalarV)>, rest: Seq<char>|
            #[trigger] obj_hyp(cs@.skip(pos as int), ms, rest) ==> (r matches Ok((lst, p))
                && members_view(lst@) == ms && cs@.skip(p as int) == rest),
{
    let n = cs.len();
    if pos >= n || cs[pos] != '{' {
        proof {
            assert forall|ms: Seq<(Seq<char>, ScalarV)>, rest: Seq<char>|
                #[trigger] obj_hyp(cs@.skip(pos as int), ms, rest) implies false by {
                assert(cs@.skip(pos as int).len() >= 2);
                assert(cs@.skip(pos as int)[0] == cs@[pos as int]);
                assert((enc_obj(ms) + rest)[0] == '{');
            }
        }
        return Err(corrupt());
    }
    let mut p = skip_ws(cs, pos + 1);
    proof {
        assert forall|ms: Seq<(Seq<char>, ScalarV)>, rest: Seq<char>|
            #[trigger] obj_hyp(cs@.skip(pos as int), ms, rest) implies (cs@.skip(p as int)
            == enc_members(ms) + seq!['}'] + rest) by {
            assert(cs@.skip(pos as int + 1) =~= cs@.skip(pos as int).skip(1));
            assert((enc_obj(ms) + rest).skip(1) =~= enc_members(ms) + seq!['}'] + rest);
            let after = enc_members(ms) + seq!['}'] + rest;
            assert(after.len() >= 1);
            if ms.len() == 0 {
                assert(enc_members(ms) == Seq::<char>::empty());
                assert(after =~= seq!['}'] + rest);
                assert(after[0] == '}');
            } else {
                lemma_enc_members_cons(ms);
                assert(ms.skip(0) =~= ms);
                assert(after[0] == enc_members(ms)[0]);
                assert(enc_members(ms)[0] == enc_member(ms[0])[0]);
                assert(enc_member(ms[0])[0] == '"');
            }
            assert(cs@.skip(pos as int + 1).len() >= 1);
            assert(cs@.skip(pos as int + 1)[0] == cs@[pos as int + 1]);
            assert(!is_ws_char(cs@[pos as int + 1]));
            assert(p == pos + 1);
        }
    }
    let mut lst: Vec<(String, Scalar)> = Vec::new();
    if p < n && cs[p] == '}' {
        proof {
            assert forall|ms: Seq<(Seq<char>, ScalarV)>, rest: Seq<char>|
                #[trigger] obj_hyp(cs@.skip(pos as int), ms, rest) implies (members_view(lst@) == ms
                && cs@.skip(p as int + 1) == rest) by {
                if ms.len() > 0 {
                    lemma_enc_members_cons(ms);
                    assert(cs@.skip(p as int)[0] == cs@[p as int]);
                    assert((enc_members(ms) + seq!['}'] + rest)[0] == enc_member(ms[0])[0]);
                    assert(enc_member(ms[0])[0] == '"');
                    assert(false);
                }
                assert(enc_members(ms) == Seq::<char>::empty());
                assert(enc_members(ms) + seq!['}'] + rest =~= seq!['}'] + rest);
                assert(cs@.skip(p as int + 1) =~= cs@.skip(p as int).skip(1));
                assert((seq!['}'] + rest).skip(1) =~= rest);
                assert(members_view(lst@) =~= ms);
            }
        }
        return Ok((lst, p + 1));
    }
    proof {
        assert forall|ms: Seq<(Seq<char>, ScalarV)>, rest: Seq<char>|
            #[trigger] obj_hyp(cs@.skip(pos as int), ms, rest) implies (lst@.len() < ms.len()
            && members_view(lst@) == ms.take(lst@.len() as int) && cs@.skip(p as int)
            == enc_members(ms.skip(lst@.len() as int)) + seq!['}'] + rest) by {
            if ms.len() == 0 {
                assert(enc_members(ms) == Seq::<char>::empty());
                assert(enc_members(ms) + seq!['}'] + rest =~= seq!['}'] + rest);
                assert(cs@.skip(p as int).len() >= 1);
                assert(cs@.skip(p as int)[0] == cs@[p as int]);
                assert(cs@[p as int] == '}');
                assert(false);
            }
            assert(members_view(lst@) =~= ms.take(0));
            assert(ms.skip(0) =~= ms);
        }
    }
    loop
        invariant
            pos < p <= n,
            n == cs@.len(),
            forall|ms: Seq<(Seq<char>, ScalarV)>, rest: Seq<char>|
                #[trigger] obj_hyp(cs@.skip(pos as int), ms, rest) ==> (lst@.len() < ms.len()
                    && members_view(lst@) == ms.take(lst@.len() as int) && cs@.skip(p as int)
                    == enc_members(ms.skip(lst@.len() as int)) + seq!['}'] + rest),
        decreases n - p,
    {
        let ghost k = lst@.len() as int;
        let ghost p0 = p as int;
        let key: String;
        match parse_string(cs, p) {
            Ok((s, p2)) => {
                key = s;
                p = p2;
            },
            Err(e) => {
                proof {
                    assert forall|ms: Seq<(Seq<char>, ScalarV)>, rest: Seq<char>|
                        #[trigger] obj_hyp(cs@.skip(pos as int), ms, rest) implies false by {
                        lemma_member_split(cs@, p0, ms, k, rest);
                    }
                }
                return Err(e);
            },
        }
        let ghost pk = p as int;
        proof {
            assert forall|ms: Seq<(Seq<char>, ScalarV)>, rest: Seq<char>|
                #[trigger] obj_hyp(cs@.skip(pos as int), ms, rest) implies (key@ == ms[k].0
                && cs@.skip(pk) == mid_of_member(ms, k, rest)) by {
                lemma_member_split(cs@, p0, ms, k, rest);
            }
        }
        p = skip_ws(cs, p);
        if p >= n || cs[p] != ':' {
            proof {
                assert forall|ms: Seq<(Seq<char>, ScalarV)>, rest: Seq<char>|
                    #[trigger] obj_hyp(cs@.skip(pos as int), ms, rest) implies false by {
                    lemma_member_split(cs@, p0, ms, k, rest);
                    let tail1 = mid_of_member(ms, k, rest);
                    assert(tail1[0] == ':');
                    assert(cs@.skip(pk).len() >= 1);
                    assert(cs@.skip(pk)[0] == cs@[pk]);
                    assert(cs@[pk] == ':');
                    assert(p == pk);
                }
            }
            return Err(corrupt());
        }
        let ghost p1 = p as int;
        p += 1;
        p = skip_ws(cs, p);
        proof {
            assert forall|ms: Seq<(Seq<char>, ScalarV)>, rest: Seq<char>|
                #[trigger] obj_hyp(cs@.skip(pos as int), ms, rest) implies scalar_hyp(
                cs@.skip(p as int),
                ms[k].1,
                after_of_member(ms, k, rest),
            ) by {
                lemma_member_split(cs@, p0, ms, k, rest);
                let tail1 = mid_of_member(ms, k, rest);
                let tail2 = after_of_member(ms, k, rest);
                assert(tail1[0] == ':');
                assert(cs@.skip(pk).len() >= 1);
                assert(cs@.skip(pk)[0] == cs@[pk]);
                assert(p1 == pk);
                assert(cs@.skip(p1 + 1) =~= cs@.skip(p1).skip(1));
                assert((seq![':'] + (enc_scalar(ms[k].1) + tail2)).skip(1) =~= enc_scalar(ms[k].1)
                    + tail2);
                lemma_enc_scalar_head(ms[k].1);
                assert(cs@.skip(p1 + 1).len() >= 1);
                assert(cs@.skip(p1 + 1)[0] == cs@[p1 + 1]);
                assert((enc_scalar(ms[k].1) + tail2)[0] == enc_scalar(ms[k].1)[0]);
                assert(!is_ws_char(enc_scalar(ms[k].1)[0]));
                assert(p == p1 + 1);
                lemma_after_head(ms, k, rest);
            }
        }
        let ghost p2g = p as int;
        let val: Scalar;
        match parse_scalar(cs, p) {
            Ok((sc, p3)) => {
                val = sc;
                p = p3;
            },
            Err(e) => {
                proof {
                    assert forall|ms: Seq<(Seq<char>, ScalarV)>, rest: Seq<char>|
                        #[trigger] obj_hyp(cs@.skip(pos as int), ms, rest) implies false by {
                        assert(scalar_hyp(cs@.skip(p2g), ms[k].1, after_of_member(ms, k, rest)));
                    }
                }
                return Err(e);
            },
        }
        let ghost ps = p as int;
        let ghost old_lst = lst@;
        lst.push((key, val));
        proof {
            assert forall|ms: Seq<(Seq<char>, ScalarV)>, rest: Seq<char>|
                #[trigger] obj_hyp(cs@.skip(pos as int), ms, rest) implies (lst@.len() == k + 1
                && members_view(lst@) == ms.take(k + 1) && cs@.skip(ps) == after_of_member(
                ms,
                k,
                rest,
            )) by {
                assert(scalar_hyp(cs@.skip(p2g), ms[k].1, after_of_member(ms, k, rest)));
                assert(val@ == ms[k].1);
                assert(members_view(lst@) =~= ms.take(k + 1));
            }
        }
        p = skip_ws(cs, p);
        proof {
            assert forall|ms: Seq<(Seq<char>, ScalarV)>, rest: Seq<char>|
                #[trigger] obj_hyp(cs@.skip(pos as int), ms, rest) implies (p == ps && cs@.skip(
                p as int,
            ) == after_of_member(ms, k, rest)) by {
                let tail2 = after_of_member(ms, k, rest);
                lemma_after_head(ms, k, rest);
                assert(cs@.skip(ps).len() >= 1);
                assert(cs@.skip(ps)[0] == cs@[ps]);
                assert(!is_ws_char(cs@[ps]));
            }
        }
        if p < n && cs[p] == ',' {
            let ghost pc = p as int;
            p += 1;
            p = skip_ws(cs, p);
            proof {
                assert forall|ms: Seq<(Seq<char>, ScalarV)>, rest: Seq<char>|
                    #[trigger] obj_hyp(cs@.skip(pos as int), ms, rest) implies (lst@.len()
                    < ms.len() && cs@.skip(p as int) == enc_members(ms.skip(lst@.len() as int))
                    + seq!['}'] + rest) by {
                    let tail2 = after_of_member(ms, k, rest);
                    assert(cs@.skip(pc)[0] == cs@[pc]);
                    if k + 1 == ms.len() {
                        assert(tail2 =~= seq!['}'] + rest);
                        assert(tail2[0] == '}');
                        assert(false);
                    }
                    assert(tail2 == seq![','] + (enc_members(ms.skip(k + 1)) + seq!['}'] + rest));
                    assert(cs@.skip(pc + 1) =~= cs@.skip(pc).skip(1));
                    assert((seq![','] + (enc_members(ms.skip(k + 1)) + seq!['}'] + rest)).skip(1)
                        =~= enc_members(ms.skip(k + 1)) + seq!['}'] + rest);
                    lemma_enc_members_cons(ms.skip(k + 1));
                    assert(ms.skip(k + 1)[0] == ms[k + 1]);
                    assert(ms.skip(k + 1).len() >= 1);
                    assert(cs@.skip(pc + 1).len() >= 1);
                    assert(cs@.skip(pc + 1)[0] == cs@[pc + 1]);
                    assert((enc_members(ms.skip(k + 1)) + seq!['}'] + rest)[0] == enc_members(
                        ms.skip(k + 1),
                    )[0]) by {
                        assert(enc_members(ms.skip(k + 1)).len() >= 1) by {
                            if ms.skip(k + 1).len() == 1 {
                                assert(enc_members(ms.skip(k + 1)) == enc_member(ms.skip(k + 1)[0]));
                            }
                        }
                    }
                    assert(enc_members(ms.skip(k + 1))[0] == enc_member(ms[k + 1])[0]) by {
                        if ms.skip(k + 1).len() == 1 {
                            assert(enc_members(ms.skip(k + 1)) == enc_member(ms.skip(k + 1)[0]));
                        }
                    }
                    assert(enc_member(ms[k + 1])[0] == '"');
                    assert(!is_ws_char(cs@[pc + 1]));
                    assert(p == pc + 1);
                }
            }
        } else if p < n && cs[p] == '}' {
            proof {
                assert forall|ms: Seq<(Seq<char>, ScalarV)>, rest: Seq<char>|
                    #[trigger] obj_hyp(cs@.skip(pos as int), ms, rest) implies (members_view(lst@)
                    == ms && cs@.skip(p as int + 1) == rest) by {
                    let tail2 = after_of_member(ms, k, rest);
                    assert(cs@.skip(p as int)[0] == cs@[p as int]);
                    if k + 1 < ms.len() {
                        assert(tail2[0] == ',');
                        assert(false);
                    }
                    assert(tail2 =~= seq!['}'] + rest);
                    assert(ms.take(k + 1) =~= ms);
                    assert(cs@.skip(p as int + 1) =~= cs@.skip(p as int).skip(1));
                    assert((seq!['}'] + rest).skip(1) =~= rest);
                }
            }
            return Ok((lst, p + 1));
        } else {
            proof {
                assert forall|ms: Seq<(Seq<char>, ScalarV)>, rest: Seq<char>|
                    #[trigger] obj_hyp(cs@.skip(pos as int), ms, rest) implies false by {
                    let tail2 = after_of_member(ms, k, rest);
                    assert(cs@.skip(p as int).len() == n - p);
                    lemma_after_head(ms, k, rest);
                    assert(cs@.skip(p as int)[0] == cs@[p as int]);
                }
            }
            return Err(corrupt());
        }
    }
}

/// Splits the suffix at a member boundary into the key token and what
/// follows it.
proof fn lemma_member_split(
    cs: Seq<char>,
    p0: int,
    ms: Seq<(Seq<char>, ScalarV)>,
    k: int,
    rest: Seq<char>,
)
    requires
        0 <= k < ms.len(),
        0 <= p0 <= cs.len(),
        cs.skip(p0) == enc_members(ms.skip(k)) + seq!['}'] + rest,
    ensures
        cs.skip(p0) == enc_str(ms[k].0) + mid_of_member(ms, k, rest),
{
    lemma_enc_members_cons(ms.skip(k));
    assert(ms.skip(k)[0] == ms[k]);
    assert(ms.skip(k).len() == ms.len() - k);
    if k + 1 < ms.len() {
        assert(ms.skip(k).skip(1) =~= ms.skip(k + 1));
        assert(enc_members(ms.skip(k)) == enc_member(ms[k]) + (seq![','] + enc_members(
            ms.skip(k + 1),
        )));
        assert(enc_members(ms.skip(k)) + seq!['}'] + rest =~= enc_str(ms[k].0) + mid_of_member(
            ms,
            k,
            rest,
        ));
    } else {
        assert(enc_members(ms.skip(k)) == enc_member(ms[k]));
        assert(enc_members(ms.skip(k)) + seq!['}'] + rest =~= enc_str(ms[k].0) + mid_of_member(
            ms,
            k,
            rest,
        ));
    }
}

/// What follows a member's value begins with a separator or the brace.
proof fn lemma_after_head(ms: Seq<(Seq<char>, ScalarV)>, k: int, rest: Seq<char>)
    requires
        0 <= k < ms.len(),
    ensures
        after_of_member(ms, k, rest).len() >= 1,
        after_of_member(ms, k, rest)[0] == ',' || after_of_member(ms, k, rest)[0] == '}',
        !is_digit_char(after_of_member(ms, k, rest)[0]),
        !is_ws_char(after_of_member(ms, k, rest)[0]),
{
    let tail2 = after_of_member(ms, k, rest);
    if k + 1 < ms.len() {
        assert(tail2[0] == ',');
    } else {
        assert(tail2 =~= seq!['}'] + rest);
        assert(tail2[0] == '}');
    }
}

/// What follows a member's key inside an object being read.
spec fn mid_of_member(
    ms: Seq<(Seq<char>, ScalarV)>,
    k: int,
    rest: Seq<char>,
) -> Seq<char> {
    seq![':'] + (enc_scalar(ms[k].1) + after_of_member(ms, k, rest))
}

/// What follows a member's value inside an object being read.
spec fn after_of_member(
    ms: Seq<(Seq<char>, ScalarV)>,
    k: int,
    rest: Seq<char>,
) -> Seq<char> {
    if k + 1 < ms.len() {
        seq![','] + (enc_members(ms.skip(k + 1)) + seq!['}'] + rest)
    } else {
        seq!['}'] + rest
    }
}

/// The canonical shape of a record array next to its continuation.
spec fn arr_hyp(
    suffix: Seq<char>,
    ls: Seq<Seq<(Seq<char>, ScalarV)>>,
    rest: Seq<char>,
) -> bool {
    &&& suffix == enc_arr(ls) + rest
    &&& wf_objs(ls)
}

/// What follows a record object inside an array being read.
spec fn after_of_obj(
    ls: Seq<Seq<(Seq<char>, ScalarV)>>,
    k: int,
    rest: Seq<char>,
) -> Seq<char> {
    if k + 1 < ls.len() {
        seq![','] + (enc_objs(ls.skip(k + 1)) + seq![']'] + rest)
    } else {
        seq![']'] + rest
    }
}

/// Splits the suffix at an array-element boundary.
proof fn lemma_obj_split(
    cs: Seq<char>,
    p0: int,
    ls: Seq<Seq<(Seq<char>, ScalarV)>>,
    k: int,
    rest: Seq<char>,
)
    requires
        0 <= k < ls.len(),
        0 <= p0 <= cs.len(),
        cs.skip(p0) == enc_objs(ls.skip(k)) + seq![']'] + rest,
    ensures
        cs.skip(p0) == enc_obj(ls[k]) + after_of_obj(ls, k, rest),
{
    lemma_enc_objs_cons(ls.skip(k));
    assert(ls.skip(k)[0] == ls[k]);
    assert(ls.skip(k).len() == ls.len() - k);
    if k + 1 < ls.len() {
        assert(ls.skip(k).skip(1) =~= ls.skip(k + 1));
        assert(enc_objs(ls.skip(k)) == enc_obj(ls[k]) + (seq![','] + enc_objs(ls.skip(k + 1))));
        assert(enc_objs(ls.skip(k)) + seq![']'] + rest =~= enc_obj(ls[k]) + after_of_obj(
            ls,
            k,
            rest,
        ));
    } else {
        assert(enc_objs(ls.skip(k)) == enc_obj(ls[k]));
        assert(enc_objs(ls.skip(k)) + seq![']'] + rest =~= enc_obj(ls[k]) + after_of_obj(
            ls,
            k,
            rest,
        ));
    }
}

/// What follows an array element begins with a separator or the bracket.
proof fn lemma_after_obj_head(ls: Seq<Seq<(Seq<char>, ScalarV)>>, k: int, rest: Seq<char>)
    requires
        0 <= k < ls.len(),
    ensures
        after_of_obj(ls, k, rest).len() >= 1,
        after_of_obj(ls, k, rest)[0] == ',' || after_of_obj(ls, k, rest)[0] == ']',
        !is_ws_char(after_of_obj(ls, k, rest)[0]),
{
    let tail = after_of_obj(ls, k, rest);
    if k + 1 < ls.len() {
        assert(tail[0] == ',');
    } else {
        assert(tail =~= seq![']'] + rest);
        assert(tail[0] == ']');
    }
}

/// Reads one record array into its element pair lists, in order.
#[verifier::rlimit(100)]
fn parse_arr(cs: &Vec<char>, pos: usize) -> (r: Result<
    (Vec<Vec<(String, Scalar)>>, usize),
    AppError,
>)
    requires
        pos <= cs@.len(),
    ensures
        r matches Ok((lst, p)) ==> pos < p <= cs@.len(),
        r matches Err(e) ==> e is Corrupt,
        forall|ls: Seq<Seq<(Seq<char>, ScalarV)>>, rest: Seq<char>|
            #[trigger] arr_hyp(cs@.skip(pos as int), ls, rest) ==> (r matches Ok((lst, p))
                && objs_view(lst@) == ls && cs@.skip(p as int) == rest),
{
    let n = cs.len();
    if pos >= n || cs[pos] != '[' {
        proof {
            assert forall|ls: Seq<Seq<(Seq<char>, ScalarV)>>, rest: Seq<char>|
                #[trigger] arr_hyp(cs@.skip(pos as int), ls, rest) implies false by {
                assert(cs@.skip(pos as int).len() >= 2);
                assert(cs@.skip(pos as int)[0] == cs@[pos as int]);
                assert((enc_arr(ls) + rest)[0] == '[');
            }
        }
        return Err(corrupt());
    }
    let mut p = skip_ws(cs, pos + 1);
    proof {
        assert forall|ls: Seq<Seq<(Seq<char>, ScalarV)>>, rest: Seq<char>|
            #[trigger] arr_hyp(cs@.skip(pos as int), ls, rest) implies (cs@.skip(p as int)
            == enc_objs(ls) + seq![']'] + rest) by {
            assert(cs@.skip(pos as int + 1) =~= cs@.skip(pos as int).skip(1));
            assert((enc_arr(ls) + rest).skip(1) =~= enc_objs(ls) + seq![']'] + rest);
            let after = enc_objs(ls) + seq![']'] + rest;
            assert(after.len() >= 1);
            if ls.len() == 0 {
                assert(enc_objs(ls) == Seq::<char>::empty());
                assert(after =~= seq![']'] + rest);
                assert(after[0] == ']');
            } else {
                lemma_enc_objs_cons(ls);
                assert(ls.skip(0) =~= ls);
                assert(after[0] == enc_objs(ls)[0]);
                assert(enc_objs(ls)[0] == enc_obj(ls[0])[0]);
                assert(enc_obj(ls[0])[0] == '{');
            }
            assert(cs@.skip(pos as int + 1).len() >= 1);
            assert(cs@.skip(pos as int + 1)[0] == cs@[pos as int + 1]);
            assert(!is_ws_char(cs@[pos as int + 1]));
            assert(p == pos + 1);
        }
    }
    let mut lst: Vec<Vec<(String, Scalar)>> = Vec::new();
    if p < n && cs[p] == ']' {
        proof {
            assert forall|ls: Seq<Seq<(Seq<char>, ScalarV)>>, rest: Seq<char>|
                #[trigger] arr_hyp(cs@.skip(pos as int), ls, rest) implies (objs_view(lst@) == ls
                && cs@.skip(p as int + 1) == rest) by {
                if ls.len() > 0 {
                    lemma_enc_objs_cons(ls);
                    assert(cs@.skip(p as int)[0] == cs@[p as int]);
                    assert((enc_objs(ls) + seq![']'] + rest)[0] == enc_obj(ls[0])[0]);
                    assert(enc_obj(ls[0])[0] == '{');
                    assert(false);
                }
                assert(enc_objs(ls) == Seq::<char>::empty());
                assert(enc_objs(ls) + seq![']'] + rest =~= seq![']'] + rest);
                assert(cs@.skip(p as int + 1) =~= cs@.skip(p as int).skip(1));
                assert((seq![']'] + rest).skip(1) =~= rest);
                assert(objs_view(lst@) =~= ls);
            }
        }
        return Ok((lst, p + 1));
    }
    proof {
        assert forall|ls: Seq<Seq<(Seq<char>, ScalarV)>>, rest: Seq<char>|
            #[trigger] arr_hyp(cs@.skip(pos as int), ls, rest) implies (lst@.len() < ls.len()
            && objs_view(lst@) == ls.take(lst@.len() as int) && cs@.skip(p as int) == enc_objs(
            ls.skip(lst@.len() as int),
        ) + seq![']'] + rest) by {
            if ls.len() == 0 {
                assert(enc_objs(ls) == Seq::<char>::empty());
                assert(enc_objs(ls) + seq![']'] + rest =~= seq![']'] + rest);
                assert(cs@.skip(p as int).len() >= 1);
                assert(cs@.skip(p as int)[0] == cs@[p as int]);
                assert(cs@[p as int] == ']');
                assert(false);
            }
            assert(objs_view(lst@) =~= ls.take(0));
            assert(ls.skip(0) =~= ls);
        }
    }
    loop
        invariant
            pos < p <= n,
            n == cs@.len(),
            forall|ls: Seq<Seq<(Seq<char>, ScalarV)>>, rest: Seq<char>|
                #[trigger] arr_hyp(cs@.skip(pos as int), ls, rest) ==> (lst@.len() < ls.len()
                    && objs_view(lst@) == ls.take(lst@.len() as int) && cs@.skip(p as int)
                    == enc_objs(ls.skip(lst@.len() as int)) + seq![']'] + rest),
        decreases n - p,
    {
        let ghost k = lst@.len() as int;
        let ghost p0 = p as int;
        let element: Vec<(String, Scalar)>;
        match parse_obj(cs, p) {
            Ok((ml, p2)) => {
                element = ml;
                p = p2;
            },
            Err(e) => {
                proof {
                    assert forall|ls: Seq<Seq<(Seq<char>, ScalarV)>>, rest: Seq<char>|
                        #[trigger] arr_hyp(cs@.skip(pos as int), ls, rest) implies false by {
                        lemma_obj_split(cs@, p0, ls, k, rest);
                        assert(obj_hyp(cs@.skip(p0), ls[k], after_of_obj(ls, k, rest)));
                    }
                }
                return Err(e);
            },
        }
        let ghost ps = p as int;
        let ghost old_lst = lst@;
        lst.push(element);
        proof {
            assert forall|ls: Seq<Seq<(Seq<char>, ScalarV)>>, rest: Seq<char>|
                #[trigger] arr_hyp(cs@.skip(pos as int), ls, rest) implies (lst@.len() == k + 1
                && objs_view(lst@) == ls.take(k + 1) && cs@.skip(ps) == after_of_obj(
                ls,
                k,
                rest,
            )) by {
                lemma_obj_split(cs@, p0, ls, k, rest);
                assert(obj_hyp(cs@.skip(p0), ls[k], after_of_obj(ls, k, rest)));
                assert(objs_view(lst@) =~= ls.take(k + 1));
            }
        }
        p = skip_ws(cs, p);
        proof {
            assert forall|ls: Seq<Seq<(Seq<char>, ScalarV)>>, rest: Seq<char>|
                #[trigger] arr_hyp(cs@.skip(pos as int), ls, rest) implies (p == ps && cs@.skip(
                p as int,
            ) == after_of_obj(ls, k, rest)) by {
                lemma_after_obj_head(ls, k, rest);
                assert(cs@.skip(ps).len() >= 1);
                assert(cs@.skip(ps)[0] == cs@[ps]);
                assert(!is_ws_char(cs@[ps]));
            }
        }
        if p < n && cs[p] == ',' {
            let ghost pc = p as int;
            p += 1;
            p = skip_ws(cs, p);
            proof {
                assert forall|ls: Seq<Seq<(Seq<char>, ScalarV)>>, rest: Seq<char>|
                    #[trigger] arr_hyp(cs@.skip(pos as int), ls, rest) implies (lst@.len()
                    < ls.len() && cs@.skip(p as int) == enc_objs(ls.skip(lst@.len() as int))
                    + seq![']'] + rest) by {
                    let tail = after_of_obj(ls, k, rest);
                    assert(cs@.skip(pc)[0] == cs@[pc]);
                    if k + 1 == ls.len() {
                        assert(tail =~= seq![']'] + rest);
                        assert(tail[0] == ']');
                        assert(false);
                    }
                    assert(tail == seq![','] + (enc_objs(ls.skip(k + 1)) + seq![']'] + rest));
                    assert(cs@.skip(pc + 1) =~= cs@.skip(pc).skip(1));
                    assert((seq![','] + (enc_objs(ls.skip(k + 1)) + seq![']'] + rest)).skip(1)
                        =~= enc_objs(ls.skip(k + 1)) + seq![']'] + rest);
                    lemma_enc_objs_cons(ls.skip(k + 1));
                    assert(ls.skip(k + 1)[0] == ls[k + 1]);
                    assert(ls.skip(k + 1).len() >= 1);
                    assert(cs@.skip(pc + 1).len() >= 1);
                    assert(cs@.skip(pc + 1)[0] == cs@[pc + 1]);
                    assert(enc_objs(ls.skip(k + 1))[0] == enc_obj(ls[k + 1])[0]) by {
                        if ls.skip(k + 1).len() == 1 {
                            assert(enc_objs(ls.skip(k + 1)) == enc_obj(ls.skip(k + 1)[0]));
                        }
                    }
                    assert((enc_objs(ls.skip(k + 1)) + seq![']'] + rest)[0] == enc_objs(
                        ls.skip(k + 1),
                    )[0]) by {
                        assert(enc_objs(ls.skip(k + 1)).len() >= 1) by {
                            if ls.skip(k + 1).len() == 1 {
                                assert(enc_objs(ls.skip(k + 1)) == enc_obj(ls.skip(k + 1)[0]));
                            }
                        }
                    }
                    assert(enc_obj(ls[k + 1])[0] == '{');
                    assert(!is_ws_char(cs@[pc + 1]));
                    assert(p == pc + 1);
                }
            }
        } else if p < n && cs[p] == ']' {
            proof {
                assert forall|ls: Seq<Seq<(Seq<char>, ScalarV)>>, rest: Seq<char>|
                    #[trigger] arr_hyp(cs@.skip(pos as int), ls, rest) implies (objs_view(lst@)
                    == ls && cs@.skip(p as int + 1) == rest) by {
                    let tail = after_of_obj(ls, k, rest);
                    assert(cs@.skip(p as int)[0] == cs@[p as int]);
                    if k + 1 < ls.len() {
                        assert(tail[0] == ',');
                        assert(false);
                    }
                    assert(tail =~= seq![']'] + rest);
                    assert(ls.take(k + 1) =~= ls);
                    assert(cs@.skip(p as int + 1) =~= cs@.skip(p as int).skip(1));
                    assert((seq![']'] + rest).skip(1) =~= rest);
                }
            }
            return Ok((lst, p + 1));
        } else {
            proof {
                assert forall|ls: Seq<Seq<(Seq<char>, ScalarV)>>, rest: Seq<char>|
                    #[trigger] arr_hyp(cs@.skip(pos as int), ls, rest) implies false by {
                    assert(cs@.skip(p as int).len() == n - p);
                    lemma_after_obj_head(ls, k, rest);
                    assert(cs@.skip(p as int)[0] == cs@[p as int]);
                }
            }
            return Err(corrupt());
        }
    }
}

// ------------------------------------------------------------------
// From parsed pair lists back to records.
// ------------------------------------------------------------------

/// `key` first appears in `l` at index `i`.
spec fn first_at(l: Seq<(String, Scalar)>, key: Seq<char>, i: int) -> bool {
    &&& 0 <= i < l.len()
    &&& l[i].0@ == key
    &&& forall|j: int| 0 <= j < i ==> (#[trigger] l[j]).0@ != key
}

/// Index of the first member with the given key.
fn find_key(ml: &Vec<(String, Scalar)>, key: &str) -> (r: Option<usize>)
    ensures
        r matches Some(i) ==> first_at(ml@, key@, i as int),
        r is None ==> forall|j: int| 0 <= j < ml@.len() ==> (#[trigger] ml@[j]).0@ != key@,
{
    let n = ml.len();
    for i in 0..n
        invariant
            n == ml@.len(),
            forall|j: int| 0 <= j < i ==> (#[trigger] ml@[j]).0@ != key@,
    {
        if contents_eq(ml[i].0.as_str(), key) {
            return Some(i);
        }
    }
    None
}

/// The string a required field holds.
fn required_text(ml: &Vec<(String, Scalar)>, key: &str) -> (r: Result<String, AppError>)
    ensures
        r matches Err(e) ==> e is Corrupt,
        forall|i: int|
            #[trigger] first_at(ml@, key@, i) ==> match ml@[i].1@ {
                ScalarV::Text(s) => r matches Ok(x) && x@ == s,
                _ => r is Err,
            },
{
    match find_key(ml, key) {
        None => Err(corrupt()),
        Some(i) => match &ml[i].1 {
            Scalar::Text(s) => Ok(s.clone()),
            _ => Err(corrupt()),
        },
    }
}

/// The string an optional field holds, with absence and `null` both `None`.
fn optional_text(ml: &Vec<(String, Scalar)>, key: &str) -> (r: Result<Option<String>, AppError>)
    ensures
        r matches Err(e) ==> e is Corrupt,
        (forall|j: int| 0 <= j < ml@.len() ==> (#[trigger] ml@[j]).0@ != key@) ==> (r matches Ok(o)
            && o is None),
        forall|i: int|
            #[trigger] first_at(ml@, key@, i) ==> match ml@[i].1@ {
                ScalarV::Null => r matches Ok(o) && o is None,
                ScalarV::Text(s) => r matches Ok(o) && (o matches Some(x) && x@ == s),
                ScalarV::Num { .. } => r is Err,
            },
{
    match find_key(ml, key) {
        None => Ok(None),
        Some(i) => match &ml[i].1 {
            Scalar::Null => Ok(None),
            Scalar::Text(s) => Ok(Some(s.clone())),
            Scalar::Num { .. } => Err(corrupt()),
        },
    }
}

/// The signed count a required field holds, when it fits the type.
fn required_i64(ml: &Vec<(String, Scalar)>, key: &str) -> (r: Result<i64, AppError>)
    ensures
        r matches Err(e) ==> e is Corrupt,
        forall|i: int|
            #[trigger] first_at(ml@, key@, i) ==> match ml@[i].1@ {
                ScalarV::Num { neg, mag } => {
                    &&& (!neg && mag <= i64::MAX ==> (r matches Ok(x) && x as int == mag))
                    &&& (neg && mag <= 0x8000000000000000 ==> (r matches Ok(x) && x as int == -mag))
                },
                _ => r is Err,
            },
{
    match find_key(ml, key) {
        None => Err(corrupt()),
        Some(i) => match &ml[i].1 {
            Scalar::Num { neg, mag } => {
                if !*neg {
                    if *mag <= 9223372036854775807u64 {
                        Ok(*mag as i64)
                    } else {
                        Err(corrupt())
                    }
                } else {
                    if *mag < 9223372036854775808u64 {
                        Ok(-(*mag as i64))
                    } else if *mag == 9223372036854775808u64 {
                        Ok(i64::MIN)
                    } else {
                        Err(corrupt())
                    }
                }
            },
            _ => Err(corrupt()),
        },
    }
}

/// The unsigned count a required field holds.
fn required_u64(ml: &Vec<(String, Scalar)>, key: &str) -> (r: Result<u64, AppError>)
    ensures
        r matches Err(e) ==> e is Corrupt,
        forall|i: int|
            #[trigger] first_at(ml@, key@, i) ==> match ml@[i].1@ {
                ScalarV::Num { neg, mag } => (!neg ==> (r matches Ok(x) && x as int == mag)) && (
                neg ==> r is Err),
                _ => r is Err,
            },
{
    match find_key(ml, key) {
        None => Err(corrupt()),
        Some(i) => match &ml[i].1 {
            Scalar::Num { neg, mag } => {
                if !*neg {
                    Ok(*mag)
                } else {
                    Err(corrupt())
                }
            },
            _ => Err(corrupt()),
        },
    }
}

/// Where each field of a canonical link record stands in its member list.
proof fn lemma_link_lookup(l: Seq<(String, Scalar)>, e: LinkEntryV)
    requires
        members_view(l) == link_members(e),
    ensures
        l.len() == 6,
        first_at(l, "original_url"@, 0),
        first_at(l, "short_url"@, 1),
        first_at(l, "domain"@, 2),
        first_at(l, "slug"@, 3),
        first_at(l, "title"@, 4),
        first_at(l, "created_at"@, 5),
        l[0].1@ == ScalarV::Text(e.original_url),
        l[1].1@ == ScalarV::Text(e.short_url),
        l[2].1@ == ScalarV::Text(e.domain),
        l[3].1@ == ScalarV::Text(e.slug),
        l[4].1@ == opt_scalar(e.title),
        l[5].1@ == num_of_int(e.created_at),
{
    reveal_strlit("original_url");
    reveal_strlit("short_url");
    reveal_strlit("domain");
    reveal_strlit("slug");
    reveal_strlit("title");
    reveal_strlit("created_at");
    assert(members_view(l).len() == 6);
    assert forall|i: int| 0 <= i < 6 implies (#[trigger] l[i]).0@ == link_members(e)[i].0 && l[i].1@
        == link_members(e)[i].1 by {
        assert(members_view(l)[i] == (l[i].0@, l[i].1@));
    }
    assert("original_url"@.len() == 12);
    assert("short_url"@.len() == 9);
    assert("domain"@.len() == 6);
    assert("slug"@.len() == 4);
    assert("title"@.len() == 5);
    assert("created_at"@.len() == 10);
}

/// Where each field of a canonical text record stands in its member list.
proof fn lemma_text_lookup(l: Seq<(String, Scalar)>, e: TextEntryV)
    requires
        members_view(l) == text_members(e),
    ensures
        l.len() == 8,
        first_at(l, "url"@, 0),
        first_at(l, "page_url"@, 1),
        first_at(l, "domain"@, 2),
        first_at(l, "slug"@, 3),
        first_at(l, "title"@, 4),
        first_at(l, "syntax"@, 5),
        first_at(l, "content_preview"@, 6),
        first_at(l, "created_at"@, 7),
        l[0].1@ == ScalarV::Text(e.url),
        l[1].1@ == opt_scalar(e.page_url),
        l[2].1@ == ScalarV::Text(e.domain),
        l[3].1@ == ScalarV::Text(e.slug),
        l[4].1@ == opt_scalar(e.title),
        l[5].1@ == opt_scalar(e.syntax),
        l[6].1@ == ScalarV::Text(e.content_preview),
        l[7].1@ == num_of_int(e.created_at),
{
    reveal_strlit("url");
    reveal_strlit("page_url");
    reveal_strlit("domain");
    reveal_strlit("slug");
    reveal_strlit("title");
    reveal_strlit("syntax");
    reveal_strlit("content_preview");
    reveal_strlit("created_at");
    assert(members_view(l).len() == 8);
    assert forall|i: int| 0 <= i < 8 implies (#[trigger] l[i]).0@ == text_members(e)[i].0 && l[i].1@
        == text_members(e)[i].1 by {
        assert(members_view(l)[i] == (l[i].0@, l[i].1@));
    }
    assert("url"@.len() == 3);
    assert("page_url"@.len() == 8);
    assert("domain"@.len() == 6);
    assert("slug"@.len() == 4);
    assert("title"@.len() == 5);
    assert("syntax"@.len() == 6);
    assert("content_preview"@.len() == 15);
    assert("created_at"@.len() == 10);
    assert("domain"@[0] == 'd' && "syntax"@[0] == 's');
}

/// Where each field of a canonical file record stands in its member list.
proof fn lemma_file_lookup(l: Seq<(String, Scalar)>, e: FileEntryV)
    requires
        members_view(l) == file_members(e),
    ensures
        l.len() == 8,
        first_at(l, "url"@, 0),
        first_at(l, "page_url"@, 1),
        first_at(l, "domain"@, 2),
        first_at(l, "slug"@, 3),
        first_at(l, "filename"@, 4),
        first_at(l, "size"@, 5),
        first_at(l, "mime_type"@, 6),
        first_at(l, "created_at"@, 7),
        l[0].1@ == ScalarV::Text(e.url),
        l[1].1@ == opt_scalar(e.page_url),
        l[2].1@ == ScalarV::Text(e.domain),
        l[3].1@ == ScalarV::Text(e.slug),
        l[4].1@ == ScalarV::Text(e.filename),
        l[5].1@ == (ScalarV::Num { neg: false, mag: e.size }),
        l[6].1@ == opt_scalar(e.mime_type),
        l[7].1@ == num_of_int(e.created_at),
{
    reveal_strlit("url");
    reveal_strlit("page_url");
    reveal_strlit("domain");
    reveal_strlit("slug");
    reveal_strlit("filename");
    reveal_strlit("size");
    reveal_strlit("mime_type");
    reveal_strlit("created_at");
    assert(members_view(l).len() == 8);
    assert forall|i: int| 0 <= i < 8 implies (#[trigger] l[i]).0@ == file_members(e)[i].0 && l[i].1@
        == file_members(e)[i].1 by {
        assert(members_view(l)[i] == (l[i].0@, l[i].1@));
    }
    assert("url"@.len() == 3);
    assert("page_url"@.len() == 8);
    assert("domain"@.len() == 6);
    assert("slug"@.len() == 4);
    assert("filename"@.len() == 8);
    assert("size"@.len() == 4);
    assert("mime_type"@.len() == 9);
    assert("created_at"@.len() == 10);
    assert("page_url"@[0] == 'p' && "filename"@[0] == 'f');
    assert("slug"@[0] == 's' && "size"@[0] == 's');
    assert("slug"@[1] == 'l' && "size"@[1] == 'i');
}

/// A record's timestamp read back from its sign and magnitude.
spec fn ts_in_range(n: int) -> bool {
    i64::MIN <= n <= i64::MAX
}

/// Builds a link record from a parsed member list.
fn link_from_members(ml: &Vec<(String, Scalar)>) -> (r: Result<LinkEntry, AppError>)
    ensures
        r matches Err(e) ==> e is Corrupt,
        forall|e: LinkEntryV|
            (#[trigger] link_members(e) == members_view(ml@) && ts_in_range(e.created_at)) ==> (
            r matches Ok(le) && le@ == e),
{
    let original_url = match required_text(ml, "original_url") {
        Ok(x) => x,
        Err(er) => {
            proof {
                assert forall|e: LinkEntryV|
                    #[trigger] link_members(e) == members_view(ml@) && ts_in_range(
                        e.created_at,
                    ) implies false by { lemma_link_lookup(ml@, e) }
            }
            return Err(er);
        },
    };
    let short_url = match required_text(ml, "short_url") {
        Ok(x) => x,
        Err(er) => {
            proof {
                assert forall|e: LinkEntryV|
                    #[trigger] link_members(e) == members_view(ml@) && ts_in_range(
                        e.created_at,
                    ) implies false by { lemma_link_lookup(ml@, e) }
            }
            return Err(er);
        },
    };
    let domain = match required_text(ml, "domain") {
        Ok(x) => x,
        Err(er) => {
            proof {
                assert forall|e: LinkEntryV|
                    #[trigger] link_members(e) == members_view(ml@) && ts_in_range(
                        e.created_at,
                    ) implies false by { lemma_link_lookup(ml@, e) }
            }
            return Err(er);
        },
    };
    let slug = match required_text(ml, "slug") {
        Ok(x) => x,
        Err(er) => {
            proof {
                assert forall|e: LinkEntryV|
                    #[trigger] link_members(e) == members_view(ml@) && ts_in_range(
                        e.created_at,
                    ) implies false by { lemma_link_lookup(ml@, e) }
            }
            return Err(er);
        },
    };
    let title = match optional_text(ml, "title") {
        Ok(x) => x,
        Err(er) => {
            proof {
                assert forall|e: LinkEntryV|
                    #[trigger] link_members(e) == members_view(ml@) && ts_in_range(
                        e.created_at,
                    ) implies false by { lemma_link_lookup(ml@, e) }
            }
            return Err(er);
        },
    };
    let created_at = match required_i64(ml, "created_at") {
        Ok(x) => x,
        Err(er) => {
            proof {
                assert forall|e: LinkEntryV|
                    #[trigger] link_members(e) == members_view(ml@) && ts_in_range(
                        e.created_at,
                    ) implies false by { lemma_link_lookup(ml@, e) }
            }
            return Err(er);
        },
    };
    let out = LinkEntry { original_url, short_url, domain, slug, title, created_at };
    proof {
        assert forall|e: LinkEntryV|
            #[trigger] link_members(e) == members_view(ml@) && ts_in_range(
                e.created_at,
            ) implies out@ == e by {
            lemma_link_lookup(ml@, e);
        }
    }
    Ok(out)
}

/// Builds a text record from a parsed member list.
fn text_from_members(ml: &Vec<(String, Scalar)>) -> (r: Result<TextEntry, AppError>)
    ensures
        r matches Err(e) ==> e is Corrupt,
        forall|e: TextEntryV|
            (#[trigger] text_members(e) == members_view(ml@) && ts_in_range(e.created_at)) ==> (
            r matches Ok(te) && te@ == e),
{
    let url = match required_text(ml, "url") {
        Ok(x) => x,
        Err(er) => {
            proof {
                assert forall|e: TextEntryV|
                    #[trigger] text_members(e) == members_view(ml@) && ts_in_range(
                        e.created_at,
                    ) implies false by { lemma_text_lookup(ml@, e) }
            }
            return Err(er);
        },
    };
    let page_url = match optional_text(ml, "page_url") {
        Ok(x) => x,
        Err(er) => {
            proof {
                assert forall|e: TextEntryV|
                    #[trigger] text_members(e) == members_view(ml@) && ts_in_range(
                        e.created_at,
                    ) implies false by { lemma_text_lookup(ml@, e) }
            }
            return Err(er);
        },
    };
    let domain = match required_text(ml, "domain") {
        Ok(x) => x,
        Err(er) => {
            proof {
                assert forall|e: TextEntryV|
                    #[trigger] text_members(e) == members_view(ml@) && ts_in_range(
                        e.created_at,
                    ) implies false by { lemma_text_lookup(ml@, e) }
            }
            return Err(er);
        },
    };
    let slug = match required_text(ml, "slug") {
        Ok(x) => x,
        Err(er) => {
            proof {
                assert forall|e: TextEntryV|
                    #[trigger] text_members(e) == members_view(ml@) && ts_in_range(
                        e.created_at,
                    ) implies false by { lemma_text_lookup(ml@, e) }
            }
            return Err(er);
        },
    };
    let title = match optional_text(ml, "title") {
        Ok(x) => x,
        Err(er) => {
            proof {
                assert forall|e: TextEntryV|
                    #[trigger] text_members(e) == members_view(ml@) && ts_in_range(
                        e.created_at,
                    ) implies false by { lemma_text_lookup(ml@, e) }
            }
            return Err(er);
        },
    };
    let syntax = match optional_text(ml, "syntax") {
        Ok(x) => x,
        Err(er) => {
            proof {
                assert forall|e: TextEntryV|
                    #[trigger] text_members(e) == members_view(ml@) && ts_in_range(
                        e.created_at,
                    ) implies false by { lemma_text_lookup(ml@, e) }
            }
            return Err(er);
        },
    };
    let content_preview = match required_text(ml, "content_preview") {
        Ok(x) => x,
        Err(er) => {
            proof {
                assert forall|e: TextEntryV|
                    #[trigger] text_members(e) == members_view(ml@) && ts_in_range(
                        e.created_at,
                    ) implies false by { lemma_text_lookup(ml@, e) }
            }
            return Err(er);
        },
    };
    let created_at = match required_i64(ml, "created_at") {
        Ok(x) => x,
        Err(er) => {
            proof {
                assert forall|e: TextEntryV|
                    #[trigger] text_members(e) == members_view(ml@) && ts_in_range(
                        e.created_at,
                    ) implies false by { lemma_text_lookup(ml@, e) }
            }
            return Err(er);
        },
    };
    let out = TextEntry { url, page_url, domain, slug, title, syntax, content_preview, created_at };
    proof {
        assert forall|e: TextEntryV|
            #[trigger] text_members(e) == members_view(ml@) && ts_in_range(
                e.created_at,
            ) implies out@ == e by {
            lemma_text_lookup(ml@, e);
        }
    }
    Ok(out)
}

/// Builds a file record from a parsed member list.
fn file_from_members(ml: &Vec<(String, Scalar)>) -> (r: Result<FileEntry, AppError>)
    ensures
        r matches Err(e) ==> e is Corrupt,
        forall|e: FileEntryV|
            (#[trigger] file_members(e) == members_view(ml@) && ts_in_range(e.created_at) && 0
                <= e.size <= u64::MAX) ==> (r matches Ok(fe) && fe@ == e),
{
    let url = match required_text(ml, "url") {
        Ok(x) => x,
        Err(er) => {
            proof {
                assert forall|e: FileEntryV|
                    #[trigger] file_members(e) == members_view(ml@) && ts_in_range(e.created_at)
                        && 0 <= e.size <= u64::MAX implies false by { lemma_file_lookup(ml@, e) }
            }
            return Err(er);
        },
    };
    let page_url = match optional_text(ml, "page_url") {
        Ok(x) => x,
        Err(er) => {
            proof {
                assert forall|e: FileEntryV|
                    #[trigger] file_members(e) == members_view(ml@) && ts_in_range(e.created_at)
                        && 0 <= e.size <= u64::MAX implies false by { lemma_file_lookup(ml@, e) }
            }
            return Err(er);
        },
    };
    let domain = match required_text(ml, "domain") {
        Ok(x) => x,
        Err(er) => {
            proof {
                assert forall|e: FileEntryV|
                    #[trigger] file_members(e) == members_view(ml@) && ts_in_range(e.created_at)
                        && 0 <= e.size <= u64::MAX implies false by { lemma_file_lookup(ml@, e) }
            }
            return Err(er);
        },
    };
    let slug = match required_text(ml, "slug") {
        Ok(x) => x,
        Err(er) => {
            proof {
                assert forall|e: FileEntryV|
                    #[trigger] file_members(e) == members_view(ml@) && ts_in_range(e.created_at)
                        && 0 <= e.size <= u64::MAX implies false by { lemma_file_lookup(ml@, e) }
            }
            return Err(er);
        },
    };
    let filename = match required_text(ml, "filename") {
        Ok(x) => x,
        Err(er) => {
            proof {
                assert forall|e: FileEntryV|
                    #[trigger] file_members(e) == members_view(ml@) && ts_in_range(e.created_at)
                        && 0 <= e.size <= u64::MAX implies false by { lemma_file_lookup(ml@, e) }
            }
            return Err(er);
        },
    };
    let size = match required_u64(ml, "size") {
        Ok(x) => x,
        Err(er) => {
            proof {
                assert forall|e: FileEntryV|
                    #[trigger] file_members(e) == members_view(ml@) && ts_in_range(e.created_at)
                        && 0 <= e.size <= u64::MAX implies false by { lemma_file_lookup(ml@, e) }
            }
            return Err(er);
        },
    };
    let mime_type = match optional_text(ml, "mime_type") {
        Ok(x) => x,
        Err(er) => {
            proof {
                assert forall|e: FileEntryV|
                    #[trigger] file_members(e) == members_view(ml@) && ts_in_range(e.created_at)
                        && 0 <= e.size <= u64::MAX implies false by { lemma_file_lookup(ml@, e) }
            }
            return Err(er);
        },
    };
    let created_at = match required_i64(ml, "created_at") {
        Ok(x) => x,
        Err(er) => {
            proof {
                assert forall|e: FileEntryV|
                    #[trigger] file_members(e) == members_view(ml@) && ts_in_range(e.created_at)
                        && 0 <= e.size <= u64::MAX implies false by { lemma_file_lookup(ml@, e) }
            }
            return Err(er);
        },
    };
    let out = FileEntry { url, page_url, domain, slug, filename, size, mime_type, created_at };
    proof {
        assert forall|e: FileEntryV|
            #[trigger] file_members(e) == members_view(ml@) && ts_in_range(e.created_at) && 0
                <= e.size <= u64::MAX implies out@ == e by {
            lemma_file_lookup(ml@, e);
        }
    }
    Ok(out)
}

/// Timestamps a machine could hold, record by record.
spec fn wf_links(s: Seq<LinkEntryV>) -> bool {
    forall|i: int| 0 <= i < s.len() ==> ts_in_range((#[trigger] s[i]).created_at)
}

spec fn wf_texts(s: Seq<TextEntryV>) -> bool {
    forall|i: int| 0 <= i < s.len() ==> ts_in_range((#[trigger] s[i]).created_at)
}

spec fn wf_files(s: Seq<FileEntryV>) -> bool {
    forall|i: int|
        0 <= i < s.len() ==> ts_in_range((#[trigger] s[i]).created_at) && 0 <= s[i].size
            <= u64::MAX
}

/// Builds the link list back from parsed member lists.
fn links_from_lists(raws: &Vec<Vec<(String, Scalar)>>) -> (r: Result<Vec<LinkEntry>, AppError>)
    ensures
        r matches Err(e) ==> e is Corrupt,
        forall|s: Seq<LinkEntryV>|
            (#[trigger] link_objs(s) == objs_view(raws@) && wf_links(s)) ==> (r matches Ok(v)
                && Seq::new(v@.len(), |i: int| v@[i]@) == s),
{
    let mut out: Vec<LinkEntry> = Vec::new();
    let n = raws.len();
    proof {
        assert forall|s: Seq<LinkEntryV>|
            #[trigger] link_objs(s) == objs_view(raws@) && wf_links(s) implies (s.len() == n && Seq::new(
            out@.len(),
            |i: int| out@[i]@,
        ) == s.take(0)) by {
            assert(link_objs(s).len() == s.len());
            assert(objs_view(raws@).len() == n);
            assert(Seq::new(out@.len(), |i: int| out@[i]@) =~= s.take(0));
        }
    }
    for idx in 0..n
        invariant
            n == raws@.len(),
            forall|s: Seq<LinkEntryV>|
                (#[trigger] link_objs(s) == objs_view(raws@) && wf_links(s)) ==> (s.len() == n
                    && Seq::new(out@.len(), |i: int| out@[i]@) == s.take(idx as int)),
    {
        match link_from_members(&raws[idx]) {
            Ok(le) => {
                out.push(le);
                proof {
                    assert forall|s: Seq<LinkEntryV>|
                        #[trigger] link_objs(s) == objs_view(raws@) && wf_links(s) implies Seq::new(
                        out@.len(),
                        |i: int| out@[i]@,
                    ) == s.take(idx + 1) by {
                        assert(objs_view(raws@)[idx as int] == members_view(raws@[idx as int]@));
                        assert(link_objs(s)[idx as int] == link_members(s[idx as int]));
                        assert(ts_in_range(s[idx as int].created_at));
                        assert(le@ == s[idx as int]);
                        assert(Seq::new(out@.len(), |i: int| out@[i]@) =~= s.take(idx + 1));
                    }
                }
            },
            Err(e) => {
                proof {
                    assert forall|s: Seq<LinkEntryV>|
                        #[trigger] link_objs(s) == objs_view(raws@) && wf_links(s) implies false by {
                        assert(objs_view(raws@)[idx as int] == members_view(raws@[idx as int]@));
                        assert(link_objs(s)[idx as int] == link_members(s[idx as int]));
                        assert(ts_in_range(s[idx as int].created_at));
                    }
                }
                return Err(e);
            },
        }
    }
    proof {
        assert forall|s: Seq<LinkEntryV>|
            #[trigger] link_objs(s) == objs_view(raws@) && wf_links(s) implies Seq::new(
            out@.len(),
            |i: int| out@[i]@,
        ) == s by {
            assert(s.take(n as int) =~= s);
        }
    }
    Ok(out)
}

/// Builds the text list back from parsed member lists.
fn texts_from_lists(raws: &Vec<Vec<(String, Scalar)>>) -> (r: Result<Vec<TextEntry>, AppError>)
    ensures
        r matches Err(e) ==> e is Corrupt,
        forall|s: Seq<TextEntryV>|
            (#[trigger] text_objs(s) == objs_view(raws@) && wf_texts(s)) ==> (r matches Ok(v)
                && Seq::new(v@.len(), |i: int| v@[i]@) == s),
{
    let mut out: Vec<TextEntry> = Vec::new();
    let n = raws.len();
    proof {
        assert forall|s: Seq<TextEntryV>|
            #[trigger] text_objs(s) == objs_view(raws@) && wf_texts(s) implies (s.len() == n && Seq::new(
            out@.len(),
            |i: int| out@[i]@,
        ) == s.take(0)) by {
            assert(text_objs(s).len() == s.len());
            assert(objs_view(raws@).len() == n);
            assert(Seq::new(out@.len(), |i: int| out@[i]@) =~= s.take(0));
        }
    }
    for idx in 0..n
        invariant
            n == raws@.len(),
            forall|s: Seq<TextEntryV>|
                (#[trigger] text_objs(s) == objs_view(raws@) && wf_texts(s)) ==> (s.len() == n
                    && Seq::new(out@.len(), |i: int| out@[i]@) == s.take(idx as int)),
    {
        match text_from_members(&raws[idx]) {
            Ok(te) => {
                out.push(te);
                proof {
                    assert forall|s: Seq<TextEntryV>|
                        #[trigger] text_objs(s) == objs_view(raws@) && wf_texts(s) implies Seq::new(
                        out@.len(),
                        |i: int| out@[i]@,
                    ) == s.take(idx + 1) by {
                        assert(objs_view(raws@)[idx as int] == members_view(raws@[idx as int]@));
                        assert(text_objs(s)[idx as int] == text_members(s[idx as int]));
                        assert(ts_in_range(s[idx as int].created_at));
                        assert(te@ == s[idx as int]);
                        assert(Seq::new(out@.len(), |i: int| out@[i]@) =~= s.take(idx + 1));
                    }
                }
            },
            Err(e) => {
                proof {
                    assert forall|s: Seq<TextEntryV>|
                        #[trigger] text_objs(s) == objs_view(raws@) && wf_texts(s) implies false by {
                        assert(objs_view(raws@)[idx as int] == members_view(raws@[idx as int]@));
                        assert(text_objs(s)[idx as int] == text_members(s[idx as int]));
                        assert(ts_in_range(s[idx as int].created_at));
                    }
                }
                return Err(e);
            },
        }
    }
    proof {
        assert forall|s: Seq<TextEntryV>|
            #[trigger] text_objs(s) == objs_view(raws@) && wf_texts(s) implies Seq::new(
            out@.len(),
            |i: int| out@[i]@,
        ) == s by {
            assert(s.take(n as int) =~= s);
        }
    }
    Ok(out)
}

/// Builds the file list back from parsed member lists.
fn files_from_lists(raws: &Vec<Vec<(String, Scalar)>>) -> (r: Result<Vec<FileEntry>, AppError>)
    ensures
        r matches Err(e) ==> e is Corrupt,
        forall|s: Seq<FileEntryV>|
            (#[trigger] file_objs(s) == objs_view(raws@) && wf_files(s)) ==> (r matches Ok(v)
                && Seq::new(v@.len(), |i: int| v@[i]@) == s),
{
    let mut out: Vec<FileEntry> = Vec::new();
    let n = raws.len();
    proof {
        assert forall|s: Seq<FileEntryV>|
            #[trigger] file_objs(s) == objs_view(raws@) && wf_files(s) implies (s.len() == n && Seq::new(
            out@.len(),
            |i: int| out@[i]@,
        ) == s.take(0)) by {
            assert(file_objs(s).len() == s.len());
            assert(objs_view(raws@).len() == n);
            assert(Seq::new(out@.len(), |i: int| out@[i]@) =~= s.take(0));
        }
    }
    for idx in 0..n
        invariant
            n == raws@.len(),
            forall|s: Seq<FileEntryV>|
                (#[trigger] file_objs(s) == objs_view(raws@) && wf_files(s)) ==> (s.len() == n
                    && Seq::new(out@.len(), |i: int| out@[i]@) == s.take(idx as int)),
    {
        match file_from_members(&raws[idx]) {
            Ok(fe) => {
                out.push(fe);
                proof {
                    assert forall|s: Seq<FileEntryV>|
                        #[trigger] file_objs(s) == objs_view(raws@) && wf_files(s) implies Seq::new(
                        out@.len(),
                        |i: int| out@[i]@,
                    ) == s.take(idx + 1) by {
                        assert(objs_view(raws@)[idx as int] == members_view(raws@[idx as int]@));
                        assert(file_objs(s)[idx as int] == file_members(s[idx as int]));
                        assert(ts_in_range(s[idx as int].created_at) && 0 <= s[idx as int].size
                            <= u64::MAX);
                        assert(fe@ == s[idx as int]);
                        assert(Seq::new(out@.len(), |i: int| out@[i]@) =~= s.take(idx + 1));
                    }
                }
            },
            Err(e) => {
                proof {
                    assert forall|s: Seq<FileEntryV>|
                        #[trigger] file_objs(s) == objs_view(raws@) && wf_files(s) implies false by {
                        assert(objs_view(raws@)[idx as int] == members_view(raws@[idx as int]@));
                        assert(file_objs(s)[idx as int] == file_members(s[idx as int]));
                        assert(ts_in_range(s[idx as int].created_at) && 0 <= s[idx as int].size
                            <= u64::MAX);
                    }
                }
                return Err(e);
            },
        }
    }
    proof {
        assert forall|s: Seq<FileEntryV>|
            #[trigger] file_objs(s) == objs_view(raws@) && wf_files(s) implies Seq::new(
            out@.len(),
            |i: int| out@[i]@,
        ) == s by {
            assert(s.take(n as int) =~= s);
        }
    }
    Ok(out)
}

// ------------------------------------------------------------------
// The document as a whole.
// ------------------------------------------------------------------

/// The canonical document and a ledger model it stands for.
spec fn doc_hyp(s: Seq<char>, hv: HistoryV) -> bool {
    s == json_of_history(hv) && wf_history(hv)
}

/// The member key the canonical document writes in position `k`.
spec fn key_of(k: int) -> Seq<char> {
    if k == 0 {
        "links"@
    } else if k == 1 {
        "texts"@
    } else {
        "files"@
    }
}

/// The record array the canonical document writes in position `k`.
spec fn arr_of(hv: HistoryV, k: int) -> Seq<Seq<(Seq<char>, ScalarV)>> {
    if k == 0 {
        link_objs(hv.links)
    } else if k == 1 {
        text_objs(hv.texts)
    } else {
        file_objs(hv.files)
    }
}

/// What the canonical document still holds when `k` arrays are consumed.
spec fn part_of(hv: HistoryV, k: int) -> Seq<char>
    decreases 3 - k when 0 <= k <= 2
{
    enc_str(key_of(k)) + (seq![':'] + (enc_arr(arr_of(hv, k)) + (if k < 2 {
        seq![','] + part_of(hv, k + 1)
    } else {
        seq!['}']
    })))
}

/// What follows the `k`-th array in the canonical document.
spec fn tail_after_arr(hv: HistoryV, k: int) -> Seq<char> {
    if k < 2 {
        seq![','] + part_of(hv, k + 1)
    } else {
        seq!['}']
    }
}

/// The whole canonical document is the opening brace and the first part.
#[verifier::rlimit(100)]
proof fn lemma_doc_parts(hv: HistoryV)
    ensures
        json_of_history(hv) == seq!['{'] + part_of(hv, 0),
        json_of_history(hv).len() >= 1,
        json_of_history(hv)[0] == '{',
{
    assert(part_of(hv, 2) == enc_str(key_of(2)) + (seq![':'] + (enc_arr(arr_of(hv, 2))
        + seq!['}'])));
    assert(part_of(hv, 1) == enc_str(key_of(1)) + (seq![':'] + (enc_arr(arr_of(hv, 1)) + (seq![',']
        + part_of(hv, 2)))));
    assert(part_of(hv, 0) == enc_str(key_of(0)) + (seq![':'] + (enc_arr(arr_of(hv, 0)) + (seq![',']
        + part_of(hv, 1)))));
    assert(json_of_history(hv) =~= seq!['{'] + part_of(hv, 0));
    assert((seq!['{'] + part_of(hv, 0))[0] == '{');
}

/// Every array the canonical document holds is well formed.
proof fn lemma_wf_arrays(hv: HistoryV)
    requires
        wf_history(hv),
    ensures
        wf_objs(link_objs(hv.links)),
        wf_objs(text_objs(hv.texts)),
        wf_objs(file_objs(hv.files)),
        wf_links(hv.links),
        wf_texts(hv.texts),
        wf_files(hv.files),
{
    assert forall|i: int| 0 <= i < link_objs(hv.links).len() implies wf_members(
        #[trigger] link_objs(hv.links)[i],
    ) by {
        let ms = link_members(hv.links[i]);
        assert(ts_in_range(hv.links[i].created_at));
        assert forall|j: int| 0 <= j < ms.len() implies wf_scalar((#[trigger] ms[j]).1) by {
            if j == 5 {
                assert(ms[5].1 == num_of_int(hv.links[i].created_at));
            }
        }
    }
    assert forall|i: int| 0 <= i < text_objs(hv.texts).len() implies wf_members(
        #[trigger] text_objs(hv.texts)[i],
    ) by {
        let ms = text_members(hv.texts[i]);
        assert(ts_in_range(hv.texts[i].created_at));
        assert forall|j: int| 0 <= j < ms.len() implies wf_scalar((#[trigger] ms[j]).1) by {
            if j == 7 {
                assert(ms[7].1 == num_of_int(hv.texts[i].created_at));
            }
        }
    }
    assert forall|i: int| 0 <= i < file_objs(hv.files).len() implies wf_members(
        #[trigger] file_objs(hv.files)[i],
    ) by {
        let ms = file_members(hv.files[i]);
        assert(ts_in_range(hv.files[i].created_at));
        assert(0 <= hv.files[i].size <= u64::MAX);
        assert forall|j: int| 0 <= j < ms.len() implies wf_scalar((#[trigger] ms[j]).1) by {
            if j == 5 {
                assert(ms[5].1 == (ScalarV::Num { neg: false, mag: hv.files[i].size }));
            }
            if j == 7 {
                assert(ms[7].1 == num_of_int(hv.files[i].created_at));
            }
        }
    }
}

/// A part splits into its key token and what follows it.
proof fn lemma_part_split(hv: HistoryV, k: int)
    requires
        0 <= k <= 2,
    ensures
        part_of(hv, k) == enc_str(key_of(k)) + (seq![':'] + (enc_arr(arr_of(hv, k))
            + tail_after_arr(hv, k))),
{
}

/// The three member keys are pairwise distinct five-letter words.
proof fn lemma_keys_distinct()
    ensures
        "links"@ != "texts"@,
        "links"@ != "files"@,
        "texts"@ != "files"@,
{
    reveal_strlit("links");
    reveal_strlit("texts");
    reveal_strlit("files");
    assert("links"@[0] == 'l' && "texts"@[0] == 't' && "files"@[0] == 'f');
}

/// Reads one `"name": [records]` member of the ledger document.
#[verifier::rlimit(100)]
fn doc_member(cs: &Vec<char>, pos: usize, Ghost(kg): Ghost<int>) -> (r: Result<
    ((usize, Vec<Vec<(String, Scalar)>>), usize),
    AppError,
>)
    requires
        pos <= cs@.len(),
    ensures
        r matches Ok((x, p)) ==> pos < p <= cs@.len() && x.0 <= 2,
        r matches Err(e) ==> e is Corrupt,
        forall|hv: HistoryV|
            (#[trigger] doc_hyp(cs@, hv) && 0 <= kg <= 2 && cs@.skip(pos as int) == part_of(
                hv,
                kg,
            )) ==> (r matches Ok(((w, ls), p)) && w as int == kg && objs_view(ls@) == arr_of(
                hv,
                kg,
            ) && cs@.skip(p as int) == tail_after_arr(hv, kg)),
{
    let n = cs.len();
    let mut p = pos;
    let key: String;
    match parse_string(cs, p) {
        Ok((s2, p2)) => {
            key = s2;
            p = p2;
        },
        Err(e) => {
            proof {
                assert forall|hv: HistoryV|
                    #[trigger] doc_hyp(cs@, hv) && 0 <= kg <= 2 && cs@.skip(pos as int) == part_of(
                        hv,
                        kg,
                    ) implies false by {
                    lemma_part_split(hv, kg);
                    assert(cs@.skip(pos as int) == enc_str(key_of(kg)) + (seq![':'] + (enc_arr(
                        arr_of(hv, kg),
                    ) + tail_after_arr(hv, kg))));
                }
            }
            return Err(e);
        },
    }
    let ghost pk = p as int;
    proof {
        assert forall|hv: HistoryV|
            #[trigger] doc_hyp(cs@, hv) && 0 <= kg <= 2 && cs@.skip(pos as int) == part_of(
                hv,
                kg,
            ) implies (key@ == key_of(kg) && cs@.skip(pk) == seq![':'] + (enc_arr(arr_of(hv, kg))
            + tail_after_arr(hv, kg))) by {
            lemma_part_split(hv, kg);
            assert(cs@.skip(pos as int) == enc_str(key_of(kg)) + (seq![':'] + (enc_arr(
                arr_of(hv, kg),
            ) + tail_after_arr(hv, kg))));
        }
    }
    p = skip_ws(cs, p);
    if p >= n || cs[p] != ':' {
        proof {
            assert forall|hv: HistoryV|
                #[trigger] doc_hyp(cs@, hv) && 0 <= kg <= 2 && cs@.skip(pos as int) == part_of(
                    hv,
                    kg,
                ) implies false by {
                assert(cs@.skip(pk).len() >= 1);
                assert(cs@.skip(pk)[0] == cs@[pk]);
                assert((seq![':'] + (enc_arr(arr_of(hv, kg)) + tail_after_arr(hv, kg)))[0] == ':');
                assert(!is_ws_char(':'));
                assert(p == pk);
            }
        }
        return Err(corrupt());
    }
    let ghost p1 = p as int;
    p += 1;
    p = skip_ws(cs, p);
    let ghost pa = p as int;
    proof {
        assert forall|hv: HistoryV|
            #[trigger] doc_hyp(cs@, hv) && 0 <= kg <= 2 && cs@.skip(pos as int) == part_of(
                hv,
                kg,
            ) implies (cs@.skip(pa) == enc_arr(arr_of(hv, kg)) + tail_after_arr(hv, kg)) by {
            assert(cs@.skip(pk).len() >= 1);
            assert(cs@.skip(pk)[0] == cs@[pk]);
            assert((seq![':'] + (enc_arr(arr_of(hv, kg)) + tail_after_arr(hv, kg)))[0] == ':');
            assert(!is_ws_char(':'));
            assert(p1 == pk);
            assert(cs@.skip(p1 + 1) =~= cs@.skip(p1).skip(1));
            assert((seq![':'] + (enc_arr(arr_of(hv, kg)) + tail_after_arr(hv, kg))).skip(1)
                =~= enc_arr(arr_of(hv, kg)) + tail_after_arr(hv, kg));
            assert(cs@.skip(p1 + 1).len() >= 1);
            assert(cs@.skip(p1 + 1)[0] == cs@[p1 + 1]);
            assert((enc_arr(arr_of(hv, kg)) + tail_after_arr(hv, kg))[0] == '[');
            assert(!is_ws_char('['));
            assert(pa == p1 + 1);
        }
    }
    let which: usize = if contents_eq(key.as_str(), "links") {
        0
    } else if contents_eq(key.as_str(), "texts") {
        1
    } else if contents_eq(key.as_str(), "files") {
        2
    } else {
        proof {
            assert forall|hv: HistoryV|
                #[trigger] doc_hyp(cs@, hv) && 0 <= kg <= 2 && cs@.skip(pos as int) == part_of(
                    hv,
                    kg,
                ) implies false by {
                assert(key_of(kg) == "links"@ || key_of(kg) == "texts"@ || key_of(kg) == "files"@);
            }
        }
        return Err(corrupt());
    };
    proof {
        assert forall|hv: HistoryV|
            #[trigger] doc_hyp(cs@, hv) && 0 <= kg <= 2 && cs@.skip(pos as int) == part_of(
                hv,
                kg,
            ) implies which as int == kg by {
            lemma_keys_distinct();
        }
    }
    match parse_arr(cs, p) {
        Ok((ls, p2)) => {
            proof {
                assert forall|hv: HistoryV|
                    #[trigger] doc_hyp(cs@, hv) && 0 <= kg <= 2 && cs@.skip(pos as int) == part_of(
                        hv,
                        kg,
                    ) implies (objs_view(ls@) == arr_of(hv, kg) && cs@.skip(p2 as int)
                    == tail_after_arr(hv, kg)) by {
                    lemma_wf_arrays(hv);
                    assert(wf_objs(arr_of(hv, kg)));
                    assert(arr_hyp(cs@.skip(pa), arr_of(hv, kg), tail_after_arr(hv, kg)));
                }
            }
            Ok(((which, ls), p2))
        },
        Err(e) => {
            proof {
                assert forall|hv: HistoryV|
                    #[trigger] doc_hyp(cs@, hv) && 0 <= kg <= 2 && cs@.skip(pos as int) == part_of(
                        hv,
                        kg,
                    ) implies false by {
                    lemma_wf_arrays(hv);
                    assert(wf_objs(arr_of(hv, kg)));
                    assert(arr_hyp(cs@.skip(pa), arr_of(hv, kg), tail_after_arr(hv, kg)));
                }
            }
            Err(e)
        },
    }
}

/// Reads a whole ledger document: one object holding the three record
/// arrays under their three field names, in any order, whitespace
/// anywhere between tokens.
#[verifier::rlimit(100)]
fn parse_document(cs: &Vec<char>) -> (r: Result<History, AppError>)
    ensures
        r matches Err(e) ==> e is Corrupt,
        forall|hv: HistoryV| #[trigger] doc_hyp(cs@, hv) ==> (r matches Ok(h) && h@ == hv),
{
    let n = cs.len();
    let mut p = skip_ws(cs, 0);
    proof {
        assert forall|hv: HistoryV| #[trigger] doc_hyp(cs@, hv) implies (p == 0 && n >= 1 && cs@[0]
            == '{') by {
            lemma_doc_parts(hv);
            assert(cs@.skip(0) =~= cs@);
            assert(!is_ws_char('{'));
        }
    }
    if p >= n || cs[p] != '{' {
        proof {
            assert forall|hv: HistoryV| #[trigger] doc_hyp(cs@, hv) implies false by {}
        }
        return Err(corrupt());
    }
    let ghost pb = p as int;
    p += 1;
    p = skip_ws(cs, p);
    proof {
        assert forall|hv: HistoryV| #[trigger] doc_hyp(cs@, hv) implies (cs@.skip(p as int)
            == part_of(hv, 0)) by {
            lemma_doc_parts(hv);
            assert(pb == 0);
            assert(cs@.skip(1) =~= (seq!['{'] + part_of(hv, 0)).skip(1));
            assert((seq!['{'] + part_of(hv, 0)).skip(1) =~= part_of(hv, 0));
            lemma_part_split(hv, 0);
            assert(part_of(hv, 0)[0] == '"');
            assert(cs@.skip(1).len() >= 1);
            assert(cs@.skip(1)[0] == cs@[1]);
            assert(!is_ws_char(cs@[1]));
            assert(p == 1);
        }
    }
    let mut raw_links: Option<Vec<Vec<(String, Scalar)>>> = None;
    let mut raw_texts: Option<Vec<Vec<(String, Scalar)>>> = None;
    let mut raw_files: Option<Vec<Vec<(String, Scalar)>>> = None;
    let ghost mut k: int = 0;
    loop
        invariant_except_break
            forall|hv: HistoryV|
                #[trigger] doc_hyp(cs@, hv) ==> {
                    &&& 0 <= k <= 2
                    &&& cs@.skip(p as int) == part_of(hv, k)
                    &&& (k == 0 ==> raw_links is None)
                    &&& (k >= 1 ==> (raw_links matches Some(rl) && objs_view(rl@) == link_objs(
                        hv.links,
                    )))
                    &&& (k <= 1 ==> raw_texts is None)
                    &&& (k >= 2 ==> (raw_texts matches Some(rt) && objs_view(rt@) == text_objs(
                        hv.texts,
                    )))
                    &&& raw_files is None
                },
        invariant
            p <= n,
            n == cs@.len(),
        ensures
            forall|hv: HistoryV|
                #[trigger] doc_hyp(cs@, hv) ==> {
                    &&& (raw_links matches Some(rl) && objs_view(rl@) == link_objs(hv.links))
                    &&& (raw_texts matches Some(rt) && objs_view(rt@) == text_objs(hv.texts))
                    &&& (raw_files matches Some(rf) && objs_view(rf@) == file_objs(hv.files))
                    &&& cs@.skip(p as int) == Seq::<char>::empty()
                },
        decreases n - p,
    {
        let ghost k0 = k;
        let parsed = match doc_member(cs, p, Ghost(k0)) {
            Ok(x) => x,
            Err(e) => {
                proof {
                    assert forall|hv: HistoryV| #[trigger] doc_hyp(cs@, hv) implies false by {}
                }
                return Err(e);
            },
        };
        let ((which, ls), p2) = parsed;
        let dup = if which == 0 {
            raw_links.is_some()
        } else if which == 1 {
            raw_texts.is_some()
        } else {
            raw_files.is_some()
        };
        if dup {
            proof {
                assert forall|hv: HistoryV| #[trigger] doc_hyp(cs@, hv) implies false by {}
            }
            return Err(corrupt());
        }
        if which == 0 {
            raw_links = Some(ls);
        } else if which == 1 {
            raw_texts = Some(ls);
        } else {
            raw_files = Some(ls);
        }
        p = p2;
        proof {
            k = k0 + 1;
        }
        let ghost ps = p as int;
        p = skip_ws(cs, p);
        proof {
            assert forall|hv: HistoryV| #[trigger] doc_hyp(cs@, hv) implies (p == ps && cs@.skip(
                p as int,
            ) == tail_after_arr(hv, k - 1)) by {
                let tail = tail_after_arr(hv, k - 1);
                assert(tail.len() >= 1 && (tail[0] == ',' || tail[0] == '}')) by {
                    if k - 1 < 2 {
                        assert(tail[0] == ',');
                    } else {
                        assert(tail[0] == '}');
                    }
                }
                assert(cs@.skip(ps).len() >= 1);
                assert(cs@.skip(ps)[0] == cs@[ps]);
                assert(!is_ws_char(cs@[ps]));
            }
        }
        if p < n && cs[p] == ',' {
            let ghost pc = p as int;
            p += 1;
            p = skip_ws(cs, p);
            proof {
                assert forall|hv: HistoryV| #[trigger] doc_hyp(cs@, hv) implies (k <= 2 && cs@.skip(
                    p as int,
                ) == part_of(hv, k)) by {
                    let tail = tail_after_arr(hv, k - 1);
                    assert(cs@.skip(pc)[0] == cs@[pc]);
                    if k - 1 >= 2 {
                        assert(tail[0] == '}');
                        assert(false);
                    }
                    assert(tail == seq![','] + part_of(hv, k));
                    assert(cs@.skip(pc + 1) =~= cs@.skip(pc).skip(1));
                    assert((seq![','] + part_of(hv, k)).skip(1) =~= part_of(hv, k));
                    lemma_part_split(hv, k);
                    assert(part_of(hv, k)[0] == '"');
                    assert(cs@.skip(pc + 1).len() >= 1);
                    assert(cs@.skip(pc + 1)[0] == cs@[pc + 1]);
                    assert(!is_ws_char(cs@[pc + 1]));
                    assert(p == pc + 1);
                }
            }
        } else if p < n && cs[p] == '}' {
            p += 1;
            proof {
                assert forall|hv: HistoryV| #[trigger] doc_hyp(cs@, hv) implies ((
                raw_links matches Some(rl) && objs_view(rl@) == link_objs(hv.links)) && (
                raw_texts matches Some(rt) && objs_view(rt@) == text_objs(hv.texts)) && (
                raw_files matches Some(rf) && objs_view(rf@) == file_objs(hv.files)) && cs@.skip(
                    p as int,
                ) == Seq::<char>::empty()) by {
                    let tail = tail_after_arr(hv, k - 1);
                    assert(cs@.skip(p - 1).len() >= 1);
                    assert(cs@.skip(p - 1)[0] == cs@[p - 1]);
                    if k - 1 < 2 {
                        assert(tail == seq![','] + part_of(hv, k));
                        assert(tail[0] == ',');
                        assert(false);
                    }
                    assert(tail =~= seq!['}']);
                    assert(cs@.skip(p as int) =~= cs@.skip(p - 1).skip(1));
                    assert((seq!['}']).skip(1) =~= Seq::<char>::empty());
                }
            }
            break;
        } else {
            proof {
                assert forall|hv: HistoryV| #[trigger] doc_hyp(cs@, hv) implies false by {
                    let tail = tail_after_arr(hv, k - 1);
                    assert(cs@.skip(p as int).len() == n - p);
                    assert(tail.len() >= 1 && (tail[0] == ',' || tail[0] == '}')) by {
                        if k - 1 < 2 {
                            assert(tail[0] == ',');
                        } else {
                            assert(tail[0] == '}');
                        }
                    }
                    assert(cs@.skip(p as int)[0] == cs@[p as int]);
                }
            }
            return Err(corrupt());
        }
    }
    let ghost pe = p as int;
    p = skip_ws(cs, p);
    if p != n {
        proof {
            assert forall|hv: HistoryV| #[trigger] doc_hyp(cs@, hv) implies false by {
                assert(cs@.skip(pe).len() == 0);
                assert(pe == n);
            }
        }
        return Err(corrupt());
    }
    let rl = match raw_links {
        Some(x) => x,
        None => {
            proof {
                assert forall|hv: HistoryV| #[trigger] doc_hyp(cs@, hv) implies false by {}
            }
            return Err(corrupt());
        },
    };
    let rt = match raw_texts {
        Some(x) => x,
        None => {
            proof {
                assert forall|hv: HistoryV| #[trigger] doc_hyp(cs@, hv) implies false by {}
            }
            return Err(corrupt());
        },
    };
    let rf = match raw_files {
        Some(x) => x,
        None => {
            proof {
                assert forall|hv: HistoryV| #[trigger] doc_hyp(cs@, hv) implies false by {}
            }
            return Err(corrupt());
        },
    };
    let links = match links_from_lists(&rl) {
        Ok(v) => v,
        Err(e) => {
            proof {
                assert forall|hv: HistoryV| #[trigger] doc_hyp(cs@, hv) implies false by {
                    lemma_wf_arrays(hv);
                }
            }
            return Err(e);
        },
    };
    let texts = match texts_from_lists(&rt) {
        Ok(v) => v,
        Err(e) => {
            proof {
                assert forall|hv: HistoryV| #[trigger] doc_hyp(cs@, hv) implies false by {
                    lemma_wf_arrays(hv);
                }
            }
            return Err(e);
        },
    };
    let files = match files_from_lists(&rf) {
        Ok(v) => v,
        Err(e) => {
            proof {
                assert forall|hv: HistoryV| #[trigger] doc_hyp(cs@, hv) implies false by {
                    lemma_wf_arrays(hv);
                }
            }
            return Err(e);
        },
    };
    let out = History { links, texts, files };
    proof {
        assert forall|hv: HistoryV| #[trigger] doc_hyp(cs@, hv) implies out@ == hv by {
            lemma_wf_arrays(hv);
            assert(Seq::new(out.links@.len(), |i: int| out.links@[i]@) == hv.links);
            assert(Seq::new(out.texts@.len(), |i: int| out.texts@[i]@) == hv.texts);
            assert(Seq::new(out.files@.len(), |i: int| out.files@[i]@) == hv.files);
        }
    }
    Ok(out)
}

/// Reads a ledger back from document text.
///
/// Every canonical document reads back to exactly the ledger it was
/// rendered from: together with [`encode_history`], saving and reloading
/// yields identical content and order, however often it is repeated.
/// Anything unreadable is answered with a `Corrupt` error, never a guess.
pub fn decode_history(s: &str) -> (r: Result<History, AppError>)
    ensures
        r matches Err(e) ==> e is Corrupt,
        forall|hv: HistoryV|
            (s@ == #[trigger] json_of_history(hv) && wf_history(hv)) ==> (r matches Ok(h) && h@
                == hv),
{
    let cs = to_chars(s);
    let r = parse_document(&cs);
    proof {
        assert forall|hv: HistoryV|
            s@ == #[trigger] json_of_history(hv) && wf_history(hv) implies (r matches Ok(h) && h@
            == hv) by {
            assert(doc_hyp(cs@, hv));
        }
    }
    r
}

/// Interprets what was found at the ledger's location: no file at all is
/// an empty ledger, not an error; readable content is decoded; anything
/// malformed is a `Corrupt` error.
pub fn history_from_content(content: Option<&str>) -> (r: Result<History, AppError>)
    ensures
        content is None ==> (r matches Ok(h) && h@ == HistoryV::empty()),
        r matches Err(e) ==> e is Corrupt,
        forall|hv: HistoryV|
            (content matches Some(s) && s@ == #[trigger] json_of_history(hv) && wf_history(hv))
                ==> (r matches Ok(h) && h@ == hv),
{
    match content {
        None => Ok(History::default()),
        Some(s) => decode_history(s),
    }
}

} // verus!
