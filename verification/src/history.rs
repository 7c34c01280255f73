use crate::models::{contents_eq, FileEntry, FileEntryV, LinkEntry, LinkEntryV, TextEntry, TextEntryV};
use vstd::prelude::*;

verus! {

/// Mathematical model of the ledger: three ordered sequences,
/// most-recent-first.
pub struct HistoryV {
    pub links: Seq<LinkEntryV>,
    pub texts: Seq<TextEntryV>,
    pub files: Seq<FileEntryV>,
}

impl HistoryV {
    pub open spec fn empty() -> HistoryV {
        HistoryV { links: Seq::empty(), texts: Seq::empty(), files: Seq::empty() }
    }
}

/// Whether a link record carries the given removal key.
pub open spec fn link_has_key(e: LinkEntryV, domain: Seq<char>, slug: Seq<char>) -> bool {
    e.domain == domain && e.slug == slug
}

/// Whether a text record carries the given removal key.
pub open spec fn text_has_key(e: TextEntryV, domain: Seq<char>, slug: Seq<char>) -> bool {
    e.domain == domain && e.slug == slug
}

/// Whether a file record carries the given removal key.
pub open spec fn file_has_key(e: FileEntryV, domain: Seq<char>, slug: Seq<char>) -> bool {
    e.domain == domain && e.slug == slug
}

/// The link sequence with every record matching `(domain, slug)` removed,
/// the order of the rest untouched.
pub open spec fn without_link_key(s: Seq<LinkEntryV>, domain: Seq<char>, slug: Seq<char>) -> Seq<
    LinkEntryV,
>
    decreases s.len(),
{
    if s.len() == 0 {
        Seq::empty()
    } else {
        let rest = without_link_key(s.drop_last(), domain, slug);
        if link_has_key(s.last(), domain, slug) {
            rest
        } else {
            rest.push(s.last())
        }
    }
}

/// The text sequence with every record matching `(domain, slug)` removed,
/// the order of the rest untouched.
pub open spec fn without_text_key(s: Seq<TextEntryV>, domain: Seq<char>, slug: Seq<char>) -> Seq<
    TextEntryV,
>
    decreases s.len(),
{
    if s.len() == 0 {
        Seq::empty()
    } else {
        let rest = without_text_key(s.drop_last(), domain, slug);
        if text_has_key(s.last(), domain, slug) {
            rest
        } else {
            rest.push(s.last())
        }
    }
}

/// The file sequence with every record matching `(domain, slug)` removed,
/// the order of the rest untouched.
pub open spec fn without_file_key(s: Seq<FileEntryV>, domain: Seq<char>, slug: Seq<char>) -> Seq<
    FileEntryV,
>
    decreases s.len(),
{
    if s.len() == 0 {
        Seq::empty()
    } else {
        let rest = without_file_key(s.drop_last(), domain, slug);
        if file_has_key(s.last(), domain, slug) {
            rest
        } else {
            rest.push(s.last())
        }
    }
}

/// The in-memory ledger of past actions.
///
/// Each sequence is ordered most-recent-first: new records are prepended,
/// and records are never reordered in place, only prepended or removed.
#[derive(Debug)]
pub struct History {
    pub links: Vec<LinkEntry>,
    pub texts: Vec<TextEntry>,
    pub files: Vec<FileEntry>,
}

impl View for History {
    type V = HistoryV;

    open spec fn view(&self) -> HistoryV {
        HistoryV {
            links: Seq::new(self.links@.len(), |i: int| self.links@[i]@),
            texts: Seq::new(self.texts@.len(), |i: int| self.texts@[i]@),
            files: Seq::new(self.files@.len(), |i: int| self.files@[i]@),
        }
    }
}

impl Default for History {
    /// The empty ledger.
    fn default() -> (r: History)
        ensures
            r@ == HistoryV::empty(),
    {
        let r = History { links: Vec::new(), texts: Vec::new(), files: Vec::new() };
        proof {
            assert(r@.links =~= Seq::<LinkEntryV>::empty());
            assert(r@.texts =~= Seq::<TextEntryV>::empty());
            assert(r@.files =~= Seq::<FileEntryV>::empty());
        }
        r
    }
}

impl History {
    /// Prepends a link record: the list stays most-recent-first.
    pub fn add_link(&mut self, entry: LinkEntry)
        ensures
            final(self)@.links == seq![entry@] + old(self)@.links,
            final(self)@.texts == old(self)@.texts,
            final(self)@.files == old(self)@.files,
    {
        self.links.insert(0, entry);
        proof {
            assert(self@.links =~= seq![entry@] + old(self)@.links);
            assert(self@.texts =~= old(self)@.texts);
            assert(self@.files =~= old(self)@.files);
        }
    }

    /// Removes every link record matching `(domain, slug)`, keeping the
    /// order of the rest.
    pub fn remove_link(&mut self, domain: &str, slug: &str)
        ensures
            final(self)@.links == without_link_key(old(self)@.links, domain@, slug@),
            final(self)@.texts == old(self)@.texts,
            final(self)@.files == old(self)@.files,
    {
        let mut kept: Vec<LinkEntry> = Vec::new();
        let n = self.links.len();
        let ghost orig = self@.links;
        proof {
            assert(orig.take(0) =~= Seq::<LinkEntryV>::empty());
        }
        for i in 0..n
            invariant
                n == self.links.len(),
                orig == self@.links,
                orig.len() == n,
                forall|j: int| 0 <= j < n ==> orig[j] == #[trigger] self.links@[j]@,
                Seq::new(kept@.len(), |k: int| kept@[k]@) == without_link_key(
                    orig.take(i as int),
                    domain@,
                    slug@,
                ),
        {
            let matches_key = contents_eq(self.links[i].domain.as_str(), domain) && contents_eq(
                self.links[i].slug.as_str(),
                slug,
            );
            if !matches_key {
                kept.push(self.links[i].clone_entry());
            }
            proof {
                assert(orig[i as int] == self.links@[i as int]@);
                let prev = orig.take(i as int);
                let cur = orig.take(i + 1);
                assert(cur.drop_last() =~= prev);
                assert(cur.last() == orig[i as int]);
                assert(matches_key == link_has_key(orig[i as int], domain@, slug@));
                if matches_key {
                    assert(Seq::new(kept@.len(), |k: int| kept@[k]@) =~= without_link_key(
                        cur,
                        domain@,
                        slug@,
                    ));
                } else {
                    assert(Seq::new(kept@.len(), |k: int| kept@[k]@) =~= without_link_key(
                        prev,
                        domain@,
                        slug@,
                    ).push(orig[i as int]));
                }
            }
        }
        proof {
            assert(orig.take(n as int) =~= orig);
        }
        self.links = kept;
        proof {
            assert(self@.links =~= Seq::new(kept@.len(), |k: int| kept@[k]@));
            assert(self@.texts =~= old(self)@.texts);
            assert(self@.files =~= old(self)@.files);
        }
    }

    /// Empties the link list; persistence is the caller's affair.
    pub fn clear_links(&mut self)
        ensures
            final(self)@.links == Seq::<LinkEntryV>::empty(),
            final(self)@.texts == old(self)@.texts,
            final(self)@.files == old(self)@.files,
    {
        self.links.clear();
        proof {
            assert(self@.links =~= Seq::<LinkEntryV>::empty());
            assert(self@.texts =~= old(self)@.texts);
            assert(self@.files =~= old(self)@.files);
        }
    }

    /// Read-only view of the link list, most-recent-first.
    pub fn links(&self) -> (r: &Vec<LinkEntry>)
        ensures
            Seq::new(r@.len(), |i: int| r@[i]@) == self@.links,
    {
        proof {
            assert(Seq::new(self.links@.len(), |i: int| self.links@[i]@) =~= self@.links);
        }
        &self.links
    }

    /// Prepends a text record: the list stays most-recent-first.
    pub fn add_text(&mut self, entry: TextEntry)
        ensures
            final(self)@.texts == seq![entry@] + old(self)@.texts,
            final(self)@.links == old(self)@.links,
            final(self)@.files == old(self)@.files,
    {
        self.texts.insert(0, entry);
        proof {
            assert(self@.texts =~= seq![entry@] + old(self)@.texts);
            assert(self@.links =~= old(self)@.links);
            assert(self@.files =~= old(self)@.files);
        }
    }

    /// Removes every text record matching `(domain, slug)`, keeping the
    /// order of the rest.
    pub fn remove_text(&mut self, domain: &str, slug: &str)
        ensures
            final(self)@.texts == without_text_key(old(self)@.texts, domain@, slug@),
            final(self)@.links == old(self)@.links,
            final(self)@.files == old(self)@.files,
    {
        let mut kept: Vec<TextEntry> = Vec::new();
        let n = self.texts.len();
        let ghost orig = self@.texts;
        proof {
            assert(orig.take(0) =~= Seq::<TextEntryV>::empty());
        }
        for i in 0..n
            invariant
                n == self.texts.len(),
                orig == self@.texts,
                orig.len() == n,
                forall|j: int| 0 <= j < n ==> orig[j] == #[trigger] self.texts@[j]@,
                Seq::new(kept@.len(), |k: int| kept@[k]@) == without_text_key(
                    orig.take(i as int),
                    domain@,
                    slug@,
                ),
        {
            let matches_key = contents_eq(self.texts[i].domain.as_str(), domain) && contents_eq(
                self.texts[i].slug.as_str(),
                slug,
            );
            if !matches_key {
                kept.push(self.texts[i].clone_entry());
            }
            proof {
                assert(orig[i as int] == self.texts@[i as int]@);
                let prev = orig.take(i as int);
                let cur = orig.take(i + 1);
                assert(cur.drop_last() =~= prev);
                assert(cur.last() == orig[i as int]);
                assert(matches_key == text_has_key(orig[i as int], domain@, slug@));
                if matches_key {
                    assert(Seq::new(kept@.len(), |k: int| kept@[k]@) =~= without_text_key(
                        cur,
                        domain@,
                        slug@,
                    ));
                } else {
                    assert(Seq::new(kept@.len(), |k: int| kept@[k]@) =~= without_text_key(
                        prev,
                        domain@,
                        slug@,
                    ).push(orig[i as int]));
                }
            }
        }
        proof {
            assert(orig.take(n as int) =~= orig);
        }
        self.texts = kept;
        proof {
            assert(self@.texts =~= Seq::new(kept@.len(), |k: int| kept@[k]@));
            assert(self@.links =~= old(self)@.links);
            assert(self@.files =~= old(self)@.files);
        }
    }

    /// Empties the text list; persistence is the caller's affair.
    pub fn clear_texts(&mut self)
        ensures
            final(self)@.texts == Seq::<TextEntryV>::empty(),
            final(self)@.links == old(self)@.links,
            final(self)@.files == old(self)@.files,
    {
        self.texts.clear();
        proof {
            assert(self@.texts =~= Seq::<TextEntryV>::empty());
            assert(self@.links =~= old(self)@.links);
            assert(self@.files =~= old(self)@.files);
        }
    }

    /// Read-only view of the text list, most-recent-first.
    pub fn texts(&self) -> (r: &Vec<TextEntry>)
        ensures
            Seq::new(r@.len(), |i: int| r@[i]@) == self@.texts,
    {
        proof {
            assert(Seq::new(self.texts@.len(), |i: int| self.texts@[i]@) =~= self@.texts);
        }
        &self.texts
    }

    /// Prepends a file record: the list stays most-recent-first.
    pub fn add_file(&mut self, entry: FileEntry)
        ensures
            final(self)@.files == seq![entry@] + old(self)@.files,
            final(self)@.links == old(self)@.links,
            final(self)@.texts == old(self)@.texts,
    {
        self.files.insert(0, entry);
        proof {
            assert(self@.files =~= seq![entry@] + old(self)@.files);
            assert(self@.links =~= old(self)@.links);
            assert(self@.texts =~= old(self)@.texts);
        }
    }

    /// Removes every file record matching `(domain, slug)`, keeping the
    /// order of the rest.
    pub fn remove_file(&mut self, domain: &str, slug: &str)
        ensures
            final(self)@.files == without_file_key(old(self)@.files, domain@, slug@),
            final(self)@.links == old(self)@.links,
            final(self)@.texts == old(self)@.texts,
    {
        let mut kept: Vec<FileEntry> = Vec::new();
        let n = self.files.len();
        let ghost orig = self@.files;
        proof {
            assert(orig.take(0) =~= Seq::<FileEntryV>::empty());
        }
        for i in 0..n
            invariant
                n == self.files.len(),
                orig == self@.files,
                orig.len() == n,
                forall|j: int| 0 <= j < n ==> orig[j] == #[trigger] self.files@[j]@,
                Seq::new(kept@.len(), |k: int| kept@[k]@) == without_file_key(
                    orig.take(i as int),
                    domain@,
                    slug@,
                ),
        {
            let matches_key = contents_eq(self.files[i].domain.as_str(), domain) && contents_eq(
                self.files[i].slug.as_str(),
                slug,
            );
            if !matches_key {
                kept.push(self.files[i].clone_entry());
            }
            proof {
                assert(orig[i as int] == self.files@[i as int]@);
                let prev = orig.take(i as int);
                let cur = orig.take(i + 1);
                assert(cur.drop_last() =~= prev);
                assert(cur.last() == orig[i as int]);
                assert(matches_key == file_has_key(orig[i as int], domain@, slug@));
                if matches_key {
                    assert(Seq::new(kept@.len(), |k: int| kept@[k]@) =~= without_file_key(
                        cur,
                        domain@,
                        slug@,
                    ));
                } else {
                    assert(Seq::new(kept@.len(), |k: int| kept@[k]@) =~= without_file_key(
                        prev,
                        domain@,
                        slug@,
                    ).push(orig[i as int]));
                }
            }
        }
        proof {
            assert(orig.take(n as int) =~= orig);
        }
        self.files = kept;
        proof {
            assert(self@.files =~= Seq::new(kept@.len(), |k: int| kept@[k]@));
            assert(self@.links =~= old(self)@.links);
            assert(self@.texts =~= old(self)@.texts);
        }
    }

    /// Empties the file list; persistence is the caller's affair.
    pub fn clear_files(&mut self)
        ensures
            final(self)@.files == Seq::<FileEntryV>::empty(),
            final(self)@.links == old(self)@.links,
            final(self)@.texts == old(self)@.texts,
    {
        self.files.clear();
        proof {
            assert(self@.files =~= Seq::<FileEntryV>::empty());
            assert(self@.links =~= old(self)@.links);
            assert(self@.texts =~= old(self)@.texts);
        }
    }

    /// Read-only view of the file list, most-recent-first.
    pub fn files(&self) -> (r: &Vec<FileEntry>)
        ensures
            Seq::new(r@.len(), |i: int| r@[i]@) == self@.files,
    {
        proof {
            assert(Seq::new(self.files@.len(), |i: int| self.files@[i]@) =~= self@.files);
        }
        &self.files
    }
}

/// Prepending twice puts the later record first: starting from any list,
/// adding `r1` and then `r2` yields `r2` before `r1` before the rest.
pub proof fn lemma_prepend_ordering<T>(s: Seq<T>, r1: T, r2: T)
    ensures
        seq![r2] + (seq![r1] + s) == seq![r2, r1] + s,
        s.len() == 0 ==> seq![r2] + (seq![r1] + s) == seq![r2, r1],
{
    assert(seq![r2] + (seq![r1] + s) =~= seq![r2, r1] + s);
    if s.len() == 0 {
        assert(seq![r2, r1] + s =~= seq![r2, r1]);
    }
}

} // verus!
