//! The record of a library of markdown documents: for each file path, the
//! document's title, the hash of its content and the time it last changed.
//! Reading files, finding them and storing the record are left to the
//! caller, which hands in what it read.
use crate::fnv1_hash::{fnv1, Hashable};
use crate::href::{lemma_path_items_positive, path_items_of, Href};
use crate::md_content::{md_events_of, title_from, MdContent};
use vstd::prelude::*;
use vstd::utf8::encode_utf8;

verus! {

/// A point in time, as seconds and nanoseconds since the Unix epoch, with
/// the offset from UTC, in seconds, of the clock that read it.
#[derive(Debug, Clone, Copy, PartialEq, Eq)]
pub struct Timestamp {
    pub unix_seconds: i64,
    pub nanosecond: u32,
    pub offset_seconds: i32,
}

/// A document as the contracts see it.
pub struct DocumentView {
    pub name: Seq<char>,
    pub hash: u64,
    pub mod_time: Timestamp,
}

/// The hash of markdown text: FNV-1 over its UTF-8 bytes.
pub open spec fn content_hash(text: Seq<char>) -> u64 {
    fnv1(encode_utf8(text))
}

/// The name of a document with the text `text`: its title, or nothing.
pub open spec fn name_of(text: Seq<char>) -> Seq<char> {
    match title_from(md_events_of(text), 0) {
        Some(t) => t,
        None => Seq::empty(),
    }
}

/// The record of a document read from `text` at the time `now`.
pub open spec fn opened(text: Seq<char>, now: Timestamp) -> DocumentView {
    DocumentView { name: name_of(text), hash: content_hash(text), mod_time: now }
}

/// The record `d` after reading its file again, with the text `text`, at
/// the time `now`: unchanged where the hash is the same, else read anew.
pub open spec fn updated(d: DocumentView, text: Seq<char>, now: Timestamp) -> DocumentView {
    if d.hash == content_hash(text) {
        d
    } else {
        opened(text, now)
    }
}

/// Information about a markdown document.
#[derive(Debug, Clone)]
pub struct Document {
    name: String,
    hash: u64,
    mod_time: Timestamp,
}

impl View for Document {
    type V = DocumentView;

    closed spec fn view(&self) -> DocumentView {
        DocumentView { name: self.name@, hash: self.hash, mod_time: self.mod_time }
    }
}

impl Document {
    /// The record of a document whose file holds `content`, read at `now`:
    /// its title as name (empty where it has none), the hash of its content,
    /// and `now` as the time it last changed.
    pub fn open(content: &MdContent, now: Timestamp) -> (r: Document)
        ensures
            r@ == opened(content@, now),
    {
        let name = match content.title() {
            Some(t) => t,
            None => String::new(),
        };
        Document { name, hash: content.hash(), mod_time: now }
    }

    /// A document with the given fields, as a stored record holds them.
    pub fn from_parts(name: String, hash: u64, mod_time: Timestamp) -> (r: Document)
        ensures
            r@ == (DocumentView { name: name@, hash, mod_time }),
    {
        Document { name, hash, mod_time }
    }

    /// This record after its file was read again with `content` at `now`:
    /// kept as it is where the content's hash is the stored one, else read
    /// anew, with `now` as the time it changed.
    pub fn update(self, content: &MdContent, now: Timestamp) -> (r: Document)
        ensures
            r@ == updated(self@, content@, now),
    {
        if self.hash == content.hash() {
            self
        } else {
            Document::open(content, now)
        }
    }

    /// True when `content`, read from this document's file, differs from
    /// what was recorded, by its hash.
    pub fn has_changed(&self, content: &MdContent) -> (r: bool)
        ensures
            r == (self@.hash != content_hash(content@)),
    {
        self.hash != content.hash()
    }

    /// The time of the last change, as recorded.
    pub fn mod_time(&self) -> (r: Timestamp)
        ensures
            r == self@.mod_time,
    {
        self.mod_time
    }

    /// The document's name: its title.
    pub fn name(&self) -> (r: &str)
        ensures
            r@ == self@.name,
    {
        self.name.as_str()
    }

    /// The recorded hash of the document's content.
    pub fn content_hash(&self) -> (r: u64)
        ensures
            r == self@.hash,
    {
        self.hash
    }

    /// A copy of this record.
    pub fn copy(&self) -> (r: Document)
        ensures
            r@ == self@,
    {
        Document { name: self.name.clone(), hash: self.hash, mod_time: self.mod_time }
    }
}

/// What can go wrong in keeping a library.
#[derive(Debug, Clone, Copy, PartialEq, Eq)]
pub enum Error {
    /// The pattern that finds documents is invalid.
    PatternError,
    /// A path is not valid UTF-8.
    InvalidString,
    /// The stored library could not be read back.
    DeserializationError,
    /// A directory could not be read.
    DirectoryReadError,
    /// A directory could not be created.
    DirectoryCreateError,
    /// A file could not be read.
    FileReadError,
    /// A file could not be written.
    FileWriteError,
    /// The library could not be written out.
    SerializationError,
}

/// The paths among the first `n` of `found` that `known` does not hold, in
/// order.
pub open spec fn unknown_upto(found: Seq<String>, known: Map<Seq<char>, DocumentView>, n: int) -> Seq<
    Seq<char>,
>
    decreases n,
{
    if n <= 0 {
        Seq::empty()
    } else {
        let rest = unknown_upto(found, known, n - 1);
        if known.dom().contains(found[n - 1]@) {
            rest
        } else {
            rest.push(found[n - 1]@)
        }
    }
}

/// The paths of the first `n` entries whose file, as read in `reads`, no
/// longer has the recorded hash, in order. An entry whose file could not be
/// read is left out.
pub open spec fn changed_upto(
    entries: Seq<(Seq<char>, DocumentView)>,
    reads: Seq<Option<MdContent>>,
    n: int,
) -> Seq<Seq<char>>
    decreases n,
{
    if n <= 0 {
        Seq::empty()
    } else {
        let rest = changed_upto(entries, reads, n - 1);
        if reads[n - 1] is Some && entries[n - 1].1.hash != content_hash(reads[n - 1]->0@) {
            rest.push(entries[n - 1].0)
        } else {
            rest
        }
    }
}

/// The record that the first `n` path and document pairs give, a later pair
/// replacing an earlier one of the same path.
pub open spec fn collected_upto(docs: Seq<(String, Document)>, n: int) -> Map<Seq<char>, DocumentView>
    decreases n,
{
    if n <= 0 {
        Map::empty()
    } else {
        collected_upto(docs, n - 1).insert(docs[n - 1].0@, docs[n - 1].1@)
    }
}

/// True when `docs` has one entry per path, and `model` maps each path of
/// `docs`, and no other, to its document.
spec fn entries_agree(docs: Seq<(String, Document)>, model: Map<Seq<char>, DocumentView>) -> bool {
    &&& forall|i: int, j: int| 0 <= i < j < docs.len() ==> docs[i].0@ != docs[j].0@
    &&& forall|k: Seq<char>|
        model.dom().contains(k) <==> exists|i: int| 0 <= i < docs.len() && docs[i].0@ == k
    &&& forall|i: int| 0 <= i < docs.len() ==> model[docs[i].0@] == docs[i].1@
}

/// The documents of a library, keyed by file path.
pub struct Library {
    documents: Vec<(String, Document)>,
    model: Ghost<Map<Seq<char>, DocumentView>>,
}

impl View for Library {
    type V = Map<Seq<char>, DocumentView>;

    closed spec fn view(&self) -> Map<Seq<char>, DocumentView> {
        self.model@
    }
}

impl Library {
    #[verifier::type_invariant]
    spec fn entries_match_model(self) -> bool {
        entries_agree(self.documents@, self.model@)
    }

    /// The documents with their paths, in the order they were added.
    pub closed spec fn entries(&self) -> Seq<(Seq<char>, DocumentView)> {
        self.documents@.map_values(|e: (String, Document)| (e.0@, e.1@))
    }

    /// A library with no documents.
    pub fn new() -> (r: Library)
        ensures
            r@ == Map::<Seq<char>, DocumentView>::empty(),
            r.entries().len() == 0,
    {
        Library { documents: Vec::new(), model: Ghost(Map::empty()) }
    }

    /// The documents with their paths: one entry per path of the library.
    pub fn documents(&self) -> (r: &Vec<(String, Document)>)
        ensures
            r@.map_values(|e: (String, Document)| (e.0@, e.1@)) == self.entries(),
            forall|i: int| 0 <= i < r@.len() ==> self@.contains_key(#[trigger] r@[i].0@),
            forall|i: int| 0 <= i < r@.len() ==> self@[#[trigger] r@[i].0@] == r@[i].1@,
            forall|k: Seq<char>|
                self@.contains_key(k) ==> exists|i: int| 0 <= i < r@.len() && r@[i].0@ == k,
            forall|i: int, j: int| 0 <= i < j < r@.len() ==> r@[i].0@ != r@[j].0@,
    {
        proof {
            use_type_invariant(self);
            assert forall|i: int| 0 <= i < self.documents@.len() implies self@.contains_key(
                #[trigger] self.documents@[i].0@,
            ) by {}
        }
        &self.documents
    }

    /// True when the library holds a document at `path`.
    pub fn contains(&self, path: &String) -> (r: bool)
        ensures
            r == self@.contains_key(path@),
    {
        proof {
            use_type_invariant(self);
        }
        self.index_of(path).is_some()
    }

    fn index_of(&self, path: &String) -> (r: Option<usize>)
        ensures
            r matches Some(i) ==> i < self.documents@.len() && self.documents@[i as int].0@
                == path@,
            r is None ==> forall|i: int|
                0 <= i < self.documents@.len() ==> self.documents@[i].0@ != path@,
    {
        let mut i: usize = 0;
        while i < self.documents.len()
            invariant
                i <= self.documents@.len(),
                forall|k: int| 0 <= k < i ==> self.documents@[k].0@ != path@,
            decreases self.documents@.len() - i,
        {
            if self.documents[i].0 == *path {
                return Some(i);
            }
            i = i + 1;
        }
        None
    }

    /// Adds `doc` at `path`, in place of any document already there.
    pub fn add_document(&mut self, path: String, doc: Document)
        ensures
            final(self)@ == old(self)@.insert(path@, doc@),
    {
        let found = self.index_of(&path);
        let mut taken = Library::new();
        std::mem::swap(self, &mut taken);
        proof {
            use_type_invariant(&taken);
        }
        let ghost model = taken.model@.insert(path@, doc@);
        let Library { documents: mut docs, model: _ } = taken;
        let ghost old_docs = docs@;
        match found {
            Some(i) => {
                docs.set(i, (path, doc));
                proof {
                    assert forall|a: int, b: int| 0 <= a < b < docs@.len() implies docs@[a].0@
                        != docs@[b].0@ by {
                        assert(docs@[a].0@ == old_docs[a].0@ && docs@[b].0@ == old_docs[b].0@);
                    }
                    assert forall|k: Seq<char>|
                        (exists|a: int| 0 <= a < docs@.len() && docs@[a].0@ == k) implies model.dom().contains(k) by {
                        let a = choose|a: int| 0 <= a < docs@.len() && docs@[a].0@ == k;
                        assert(docs@[a].0@ == old_docs[a].0@);
                    }
                    assert forall|k: Seq<char>| model.dom().contains(k) implies exists|a: int|
                        0 <= a < docs@.len() && docs@[a].0@ == k by {
                        if k != docs@[i as int].0@ {
                            let a = choose|a: int|
                                0 <= a < old_docs.len() && old_docs[a].0@ == k;
                            assert(docs@[a].0@ == k);
                        }
                    }
                    assert forall|a: int| 0 <= a < docs@.len() implies model[docs@[a].0@]
                        == docs@[a].1@ by {
                        if a != i {
                            assert(docs@[a] == old_docs[a]);
                        }
                    }
                    assert(entries_agree(docs@, model));
                }
                let rebuilt = Library { documents: docs, model: Ghost(model) };
                *self = rebuilt;
            },
            None => {
                docs.push((path, doc));
                proof {
                    assert forall|a: int, b: int| 0 <= a < b < docs@.len() implies docs@[a].0@
                        != docs@[b].0@ by {
                        assert(docs@[a] == old_docs[a]);
                        if b < old_docs.len() {
                            assert(docs@[b] == old_docs[b]);
                        }
                    }
                    assert forall|k: Seq<char>|
                        (exists|a: int| 0 <= a < docs@.len() && docs@[a].0@ == k) implies model.dom().contains(k) by {
                        let a = choose|a: int| 0 <= a < docs@.len() && docs@[a].0@ == k;
                        if a < old_docs.len() {
                            assert(docs@[a] == old_docs[a]);
                        }
                    }
                    assert forall|k: Seq<char>| model.dom().contains(k) implies exists|a: int|
                        0 <= a < docs@.len() && docs@[a].0@ == k by {
                        if k != docs@[old_docs.len() as int].0@ {
                            let a = choose|a: int|
                                0 <= a < old_docs.len() && old_docs[a].0@ == k;
                            assert(docs@[a].0@ == k);
                        }
                    }
                    assert forall|a: int| 0 <= a < docs@.len() implies model[docs@[a].0@]
                        == docs@[a].1@ by {
                        if a < old_docs.len() {
                            assert(docs@[a] == old_docs[a]);
                        }
                    }
                    assert(entries_agree(docs@, model));
                }
                let rebuilt = Library { documents: docs, model: Ghost(model) };
                *self = rebuilt;
            },
        }
    }

    /// The library of the given path and document pairs; a later pair
    /// replaces an earlier one of the same path.
    pub fn from_documents(docs: Vec<(String, Document)>) -> (r: Library)
        ensures
            r@ == collected_upto(docs@, docs@.len() as int),
    {
        let mut lib = Library::new();
        let mut i: usize = 0;
        while i < docs.len()
            invariant
                i <= docs@.len(),
                lib@ == collected_upto(docs@, i as int),
            decreases docs@.len() - i,
        {
            let (p, d) = &docs[i];
            lib.add_document(p.clone(), d.copy());
            i = i + 1;
        }
        lib
    }

    /// The paths among `found` that the library does not hold yet, in order.
    pub fn scan_for_new(&self, found: &Vec<String>) -> (r: Vec<String>)
        ensures
            r@.map_values(|s: String| s@) == unknown_upto(found@, self@, found@.len() as int),
    {
        let mut r: Vec<String> = Vec::new();
        let mut i: usize = 0;
        assert(r@.map_values(|s: String| s@) =~= Seq::<Seq<char>>::empty());
        while i < found.len()
            invariant
                i <= found@.len(),
                r@.map_values(|s: String| s@) == unknown_upto(found@, self@, i as int),
            decreases found@.len() - i,
        {
            if !self.contains(&found[i]) {
                let ghost before = r@.map_values(|s: String| s@);
                r.push(found[i].clone());
                assert(r@.map_values(|s: String| s@) =~= before.push(found@[i as int]@));
            }
            i = i + 1;
        }
        r
    }

    /// The library after each document's file was read again: `reads[i]` is
    /// what the file of entry `i` now holds, `None` where it could not be
    /// read. A document whose file could not be read is dropped; each other
    /// one is updated with its content at the time `now`.
    pub fn update(self, reads: Vec<Option<MdContent>>, now: Timestamp) -> (r: Library)
        requires
            reads@.len() == self.entries().len(),
        ensures
            forall|k: Seq<char>|
                r@.contains_key(k) <==> exists|i: int|
                    0 <= i < reads@.len() && reads@[i] is Some && self.entries()[i].0 == k,
            forall|i: int|
                0 <= i < reads@.len() && reads@[i] is Some ==> r@[self.entries()[i].0]
                    == updated(self.entries()[i].1, reads@[i]->0@, now),
    {
        proof {
            use_type_invariant(&self);
        }
        let ghost entries = self.entries();
        let mut lib = Library::new();
        let mut i: usize = 0;
        while i < reads.len()
            invariant
                entries == self.entries(),
                reads@.len() == entries.len(),
                entries.len() == self.documents@.len(),
                i <= reads@.len(),
                forall|a: int, b: int| 0 <= a < b < entries.len() ==> entries[a].0 != entries[b].0,
                forall|k: Seq<char>|
                    lib@.contains_key(k) <==> exists|j: int|
                        0 <= j < i && reads@[j] is Some && entries[j].0 == k,
                forall|j: int|
                    0 <= j < i && reads@[j] is Some ==> lib@[entries[j].0] == updated(
                        entries[j].1,
                        reads@[j]->0@,
                        now,
                    ),
            decreases reads@.len() - i,
        {
            if let Some(content) = &reads[i] {
                let (p, d) = &self.documents[i];
                assert(entries[i as int] == (p@, d@));
                lib.add_document(p.clone(), d.copy().update(content, now));
                assert forall|j: int|
                    0 <= j < i + 1 && reads@[j] is Some implies lib@[entries[j].0] == updated(
                    entries[j].1,
                    reads@[j]->0@,
                    now,
                ) by {
                    if j < i {
                        assert(entries[j].0 != entries[i as int].0);
                    }
                }
            }
            i = i + 1;
        }
        lib
    }

    /// The paths of the documents whose file, as read again in `reads`, no
    /// longer has the recorded hash, in the order of `entries`. `reads[i]` is
    /// what the file of entry `i` holds, `None` where it could not be read;
    /// such a document is left out.
    pub fn changed_docs(&self, reads: &Vec<Option<MdContent>>) -> (r: Vec<String>)
        requires
            reads@.len() == self.entries().len(),
        ensures
            r@.map_values(|s: String| s@) == changed_upto(
                self.entries(),
                reads@,
                reads@.len() as int,
            ),
    {
        let ghost entries = self.entries();
        let mut r: Vec<String> = Vec::new();
        let mut i: usize = 0;
        assert(r@.map_values(|s: String| s@) =~= Seq::<Seq<char>>::empty());
        while i < reads.len()
            invariant
                entries == self.entries(),
                reads@.len() == entries.len(),
                entries.len() == self.documents@.len(),
                i <= reads@.len(),
                r@.map_values(|s: String| s@) == changed_upto(entries, reads@, i as int),
            decreases reads@.len() - i,
        {
            if let Some(content) = &reads[i] {
                let (p, d) = &self.documents[i];
                assert(entries[i as int] == (p@, d@));
                if d.has_changed(content) {
                    let ghost before = r@.map_values(|s: String| s@);
                    r.push(p.clone());
                    assert(r@.map_values(|s: String| s@) =~= before.push(p@));
                }
            }
            i = i + 1;
        }
        r
    }
}

/// `../` written `n` times.
pub open spec fn parents(n: nat) -> Seq<char>
    decreases n,
{
    if n == 0 {
        Seq::empty()
    } else {
        parents((n - 1) as nat) + seq!['.', '.', '/']
    }
}

/// The link from the page of the document at `path` back to the index page
/// at the root: one `../` for each item of the path but the last, then
/// `index.html`.
pub fn home_link(path: &String) -> (r: String)
    ensures
        r@ == parents((path_items_of(path@) - 1) as nat) + seq![
            'i',
            'n',
            'd',
            'e',
            'x',
            '.',
            'h',
            't',
            'm',
            'l',
        ],
{
    let items = path.path_items();
    proof {
        lemma_path_items_positive(path@);
    }
    let mut link = String::new();
    let mut i: usize = 1;
    assert(link@ =~= parents(0));
    while i < items
        invariant
            items == path_items_of(path@),
            1 <= i <= items,
            link@ == parents((i - 1) as nat),
        decreases items - i,
    {
        let up = "../";
        proof {
            reveal_strlit("../");
        }
        link.append(up);
        i = i + 1;
    }
    let index = "index.html";
    proof {
        reveal_strlit("index.html");
    }
    link.append(index);
    link
}

/// The path `s` with each `.md` replaced by `.html`, matched from the left
/// without overlap.
pub open spec fn page_path(s: Seq<char>) -> Seq<char>
    decreases s.len(),
{
    if s.len() == 0 {
        Seq::empty()
    } else if s.len() >= 3 && s[0] == '.' && s[1] == 'm' && s[2] == 'd' {
        seq!['.', 'h', 't', 'm', 'l'] + page_path(s.subrange(3, s.len() as int))
    } else {
        seq![s[0]] + page_path(s.drop_first())
    }
}

/// The path of the HTML page of the document at `path`: each `.md`
/// replaced by `.html`.
pub fn page_href(path: &str) -> (r: String)
    ensures
        r@ == page_path(path@),
{
    let n = path.unicode_len();
    let mut out = String::new();
    let mut i: usize = 0;
    assert(path@.subrange(0, n as int) =~= path@);
    assert(out@ + page_path(path@.subrange(0, n as int)) =~= page_path(path@));
    while i < n
        invariant
            n == path@.len(),
            i <= n,
            out@ + page_path(path@.subrange(i as int, n as int)) == page_path(path@),
        decreases n - i,
    {
        let ghost rest = path@.subrange(i as int, n as int);
        let ghost before = out@;
        if n - i >= 3 && path.get_char(i) == '.' && path.get_char(i + 1) == 'm' && path.get_char(
            i + 2,
        ) == 'd' {
            let html = ".html";
            proof {
                reveal_strlit(".html");
            }
            out.append(html);
            assert(rest.subrange(3, rest.len() as int) =~= path@.subrange(i + 3, n as int));
            assert(out@ + page_path(path@.subrange(i + 3, n as int)) =~= before + page_path(rest));
            i = i + 3;
        } else {
            let one = path.substring_char(i, i + 1);
            out.append(one);
            assert(rest.drop_first() =~= path@.subrange(i + 1, n as int));
            assert(one@ =~= seq![rest[0]]);
            assert(out@ + page_path(path@.subrange(i + 1, n as int)) =~= before + page_path(rest));
            i = i + 1;
        }
    }
    assert(out@ + page_path(path@.subrange(n as int, n as int)) =~= out@);
    out
}

} // verus!
