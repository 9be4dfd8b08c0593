//! The document collection: create, read, list, search, update and delete.
use vstd::prelude::*;
use crate::error::RepoError;
use crate::object_id::{DocId, id_bytes_of, is_id_text};
use crate::text::{contains_text, is_substring, lemma_substring_trivial, lower_of, to_lower};

verus! {

/// The fields of a document that a client supplies, as values.
pub struct Fields {
    pub title: Seq<char>,
    pub content: Seq<char>,
    pub tags: Seq<Seq<char>>,
    pub summary: Option<Seq<char>>,
    pub rating: Option<i32>,
}

/// A stored document, as values: its identifier and its fields.
pub struct Record {
    pub id: Seq<u8>,
    pub fields: Fields,
}

pub open spec fn texts_of(v: Seq<String>) -> Seq<Seq<char>> {
    v.map_values(|t: String| t@)
}

pub open spec fn optional_text_of(o: Option<String>) -> Option<Seq<char>> {
    match o {
        Some(s) => Some(s@),
        None => None,
    }
}

/// What a client sends to create or replace a document.
#[derive(Debug)]
pub struct DocumentInput {
    pub title: String,
    pub content: String,
    pub tags: Vec<String>,
    pub summary: Option<String>,
    pub rating: Option<i32>,
}

impl View for DocumentInput {
    type V = Fields;

    open spec fn view(&self) -> Fields {
        Fields {
            title: self.title@,
            content: self.content@,
            tags: texts_of(self.tags@),
            summary: optional_text_of(self.summary),
            rating: self.rating,
        }
    }
}

/// A stored document.
#[derive(Debug)]
pub struct Document {
    pub id: DocId,
    pub title: String,
    pub content: String,
    pub tags: Vec<String>,
    pub summary: Option<String>,
    pub rating: Option<i32>,
}

impl View for Document {
    type V = Record;

    open spec fn view(&self) -> Record {
        Record {
            id: self.id@,
            fields: Fields {
                title: self.title@,
                content: self.content@,
                tags: texts_of(self.tags@),
                summary: optional_text_of(self.summary),
                rating: self.rating,
            },
        }
    }
}

pub open spec fn records_of(v: Seq<Document>) -> Seq<Record> {
    v.map_values(|d: Document| d@)
}

fn copy_texts(v: &Vec<String>) -> (r: Vec<String>)
    ensures
        texts_of(r@) == texts_of(v@),
{
    let mut r: Vec<String> = Vec::new();
    let mut i: usize = 0;
    while i < v.len()
        invariant
            0 <= i <= v@.len(),
            r@.len() == i,
            forall|j: int| 0 <= j < i ==> r@[j]@ == v@[j]@,
        decreases v@.len() - i,
    {
        r.push(v[i].clone());
        i = i + 1;
    }
    assert(texts_of(r@) =~= texts_of(v@));
    r
}

fn copy_optional_text(o: &Option<String>) -> (r: Option<String>)
    ensures
        optional_text_of(r) == optional_text_of(*o),
{
    match o {
        Some(s) => Some(s.clone()),
        None => None,
    }
}

impl Document {
    /// A stored document made of an identifier and a client's fields.
    pub fn from_input(id: DocId, input: DocumentInput) -> (r: Document)
        ensures
            r@ == (Record { id: id@, fields: input@ }),
    {
        Document {
            id,
            title: input.title,
            content: input.content,
            tags: input.tags,
            summary: input.summary,
            rating: input.rating,
        }
    }

    /// An independent copy with the same identifier and fields.
    pub fn duplicate(&self) -> (r: Document)
        ensures
            r@ == self@,
    {
        Document {
            id: self.id,
            title: self.title.clone(),
            content: self.content.clone(),
            tags: copy_texts(&self.tags),
            summary: copy_optional_text(&self.summary),
            rating: self.rating,
        }
    }
}

/// Some record holds identifier `id`.
pub open spec fn has_id(s: Seq<Record>, id: Seq<u8>) -> bool {
    exists|i: int| 0 <= i < s.len() && s[i].id == id
}

/// The position of the record with identifier `id`, where there is one.
pub open spec fn index_of(s: Seq<Record>, id: Seq<u8>) -> int {
    choose|i: int| 0 <= i < s.len() && s[i].id == id
}

/// No two records share an identifier.
pub open spec fn ids_unique(s: Seq<Record>) -> bool {
    forall|i: int, j: int|
        0 <= i < s.len() && 0 <= j < s.len() && i != j ==> s[i].id != s[j].id
}

/// Where identifiers are unique, the record holding `id` sits at `index_of`.
pub proof fn lemma_index_of_unique(s: Seq<Record>, id: Seq<u8>, i: int)
    requires
        ids_unique(s),
        0 <= i < s.len(),
        s[i].id == id,
    ensures
        has_id(s, id),
        index_of(s, id) == i,
{
    assert(has_id(s, id));
}

/// A record matches a search term when the lower-cased term occurs in the
/// lower-cased title, content or one of the tags.
pub open spec fn record_matches(r: Record, term: Seq<char>) -> bool {
    let q = lower_of(term);
    ||| is_substring(q, lower_of(r.fields.title))
    ||| is_substring(q, lower_of(r.fields.content))
    ||| exists|k: int|
        0 <= k < r.fields.tags.len() && is_substring(q, #[trigger] lower_of(r.fields.tags[k]))
}

/// The records that a search for `term` returns, in the collection's order.
pub open spec fn search_result(s: Seq<Record>, term: Seq<char>) -> Seq<Record> {
    s.filter(|r: Record| record_matches(r, term))
}

/// Whether a document matches, given the lower-cased term and the lower-cased
/// title, content and tags.
pub fn matches_folded(term: &str, title: &str, content: &str, tags: &Vec<String>) -> (r: bool)
    ensures
        r == (is_substring(term@, title@) || is_substring(term@, content@) || exists|k: int|
            0 <= k < tags@.len() && is_substring(term@, #[trigger] tags@[k]@)),
{
    if contains_text(title, term) || contains_text(content, term) {
        return true;
    }
    let mut k: usize = 0;
    while k < tags.len()
        invariant
            0 <= k <= tags@.len(),
            forall|j: int| 0 <= j < k ==> !is_substring(term@, #[trigger] tags@[j]@),
        decreases tags@.len() - k,
    {
        if contains_text(tags[k].as_str(), term) {
            return true;
        }
        k = k + 1;
    }
    false
}

/// Whether a document matches `term`, ignoring case, in its title, content or tags.
pub fn document_matches(doc: &Document, term: &str) -> (r: bool)
    ensures
        r == record_matches(doc@, term@),
{
    let q = to_lower(term);
    let title = to_lower(doc.title.as_str());
    let content = to_lower(doc.content.as_str());
    let mut tags: Vec<String> = Vec::new();
    let mut k: usize = 0;
    while k < doc.tags.len()
        invariant
            0 <= k <= doc.tags@.len(),
            tags@.len() == k,
            forall|j: int| 0 <= j < k ==> #[trigger] tags@[j]@ == lower_of(doc.tags@[j]@),
        decreases doc.tags@.len() - k,
    {
        tags.push(to_lower(doc.tags[k].as_str()));
        k = k + 1;
    }
    let r = matches_folded(q.as_str(), title.as_str(), content.as_str(), &tags);
    proof {
        let rec = doc@;
        if r {
            if !is_substring(q@, title@) && !is_substring(q@, content@) {
                let k = choose|k: int| 0 <= k < tags@.len() && is_substring(q@, #[trigger] tags@[k]@);
                assert(rec.fields.tags[k] == doc.tags@[k]@);
            }
        } else {
            assert forall|k: int| 0 <= k < rec.fields.tags.len() implies
                !is_substring(q@, #[trigger] lower_of(rec.fields.tags[k])) by {
                assert(tags@[k]@ == lower_of(doc.tags@[k]@));
            }
        }
    }
    r
}

/// The collection of documents, in insertion order.
pub struct DocumentStore {
    docs: Vec<Document>,
}

impl View for DocumentStore {
    type V = Seq<Record>;

    closed spec fn view(&self) -> Seq<Record> {
        records_of(self.docs@)
    }
}

impl DocumentStore {
    /// The store's invariant: identifiers are unique.
    pub open spec fn wf(&self) -> bool {
        ids_unique(self@)
    }

    /// An empty collection.
    pub fn new() -> (r: DocumentStore)
        ensures
            r.wf(),
            r@ == Seq::<Record>::empty(),
    {
        let r = DocumentStore { docs: Vec::new() };
        assert(r@ =~= Seq::<Record>::empty());
        r
    }

    /// The number of stored documents.
    pub fn len(&self) -> (r: usize)
        ensures
            r == self@.len(),
    {
        self.docs.len()
    }

    fn find(&self, id: &DocId) -> (r: Option<usize>)
        requires
            self.wf(),
        ensures
            r.is_none() == !has_id(self@, id@),
            r matches Some(i) ==> i < self@.len() && i == index_of(self@, id@),
    {
        let mut i: usize = 0;
        while i < self.docs.len()
            invariant
                0 <= i <= self.docs@.len(),
                self@ == records_of(self.docs@),
                ids_unique(self@),
                forall|j: int| 0 <= j < i ==> self@[j].id != id@,
            decreases self.docs@.len() - i,
        {
            if self.docs[i].id.same(id) {
                proof {
                    lemma_index_of_unique(self@, id@, i as int);
                }
                return Some(i);
            }
            i = i + 1;
        }
        None
    }

    /// Stores `input` under the identifier `id`; a taken identifier is refused.
    pub fn insert_with_id(&mut self, id: DocId, input: DocumentInput) -> (r: Result<DocId, RepoError>)
        requires
            old(self).wf(),
        ensures
            final(self).wf(),
            has_id(old(self)@, id@) ==> r == Err::<DocId, RepoError>(RepoError::StoreError)
                && final(self)@ == old(self)@,
            !has_id(old(self)@, id@) ==> r == Ok::<DocId, RepoError>(id)
                && final(self)@ == old(self)@.push(Record { id: id@, fields: input@ }),
    {
        if self.find(&id).is_some() {
            return Err(RepoError::StoreError);
        }
        let doc = Document::from_input(id, input);
        self.docs.push(doc);
        proof {
            assert(self@ =~= old(self)@.push(Record { id: id@, fields: input@ }));
        }
        Ok(id)
    }

    /// Stores a new document under a freshly generated identifier and returns it.
    /// Should the generated identifier be taken already, nothing is stored.
    pub fn create(&mut self, input: DocumentInput) -> (r: Result<DocId, RepoError>)
        requires
            old(self).wf(),
        ensures
            final(self).wf(),
            r matches Ok(id) ==> !has_id(old(self)@, id@) && final(self)@ == old(self)@.push(
                Record { id: id@, fields: input@ },
            ),
            r is Err ==> r == Err::<DocId, RepoError>(RepoError::StoreError) && final(self)@ == old(
                self,
            )@,
            old(self)@.len() == 0 ==> r is Ok,
    {
        let id = DocId::generate();
        self.insert_with_id(id, input)
    }

    /// The document whose identifier is written `id`.
    pub fn get_by_id(&self, id: &str) -> (r: Result<Document, RepoError>)
        requires
            self.wf(),
        ensures
            !is_id_text(id@) ==> r == Err::<Document, RepoError>(RepoError::BadRequest),
            is_id_text(id@) && !has_id(self@, id_bytes_of(id@)) ==> r == Err::<
                Document,
                RepoError,
            >(RepoError::NotFound),
            is_id_text(id@) && has_id(self@, id_bytes_of(id@)) ==> (r matches Ok(d) && d@
                == self@[index_of(self@, id_bytes_of(id@))]),
    {
        let key = match DocId::parse(id) {
            Some(k) => k,
            None => return Err(RepoError::BadRequest),
        };
        match self.find(&key) {
            Some(i) => Ok(self.docs[i].duplicate()),
            None => Err(RepoError::NotFound),
        }
    }

    /// Every stored document, in insertion order.
    pub fn list(&self) -> (r: Vec<Document>)
        ensures
            records_of(r@) == self@,
    {
        let mut r: Vec<Document> = Vec::new();
        let mut i: usize = 0;
        while i < self.docs.len()
            invariant
                0 <= i <= self.docs@.len(),
                self@ == records_of(self.docs@),
                records_of(r@) == self@.subrange(0, i as int),
            decreases self.docs@.len() - i,
        {
            let ghost r_before = r@;
            let d = self.docs[i].duplicate();
            r.push(d);
            assert(self@[i as int] == d@);
            assert(records_of(r@) =~= records_of(r_before).push(d@));
            i = i + 1;
            assert(records_of(r@) =~= self@.subrange(0, i as int));
        }
        assert(self@.subrange(0, i as int) =~= self@);
        r
    }

    /// Every document in which `term` occurs, ignoring case, in the title, the
    /// content or a tag; each at most once, in insertion order. The empty term
    /// matches every document.
    pub fn search(&self, term: &str) -> (r: Vec<Document>)
        ensures
            records_of(r@) == search_result(self@, term@),
    {
        let ghost pred = |r: Record| record_matches(r, term@);
        let mut r: Vec<Document> = Vec::new();
        let mut i: usize = 0;
        while i < self.docs.len()
            invariant
                0 <= i <= self.docs@.len(),
                self@ == records_of(self.docs@),
                pred == (|r: Record| record_matches(r, term@)),
                records_of(r@) == self@.subrange(0, i as int).filter(pred),
            decreases self.docs@.len() - i,
        {
            let ghost before = self@.subrange(0, i as int);
            let ghost r_before = r@;
            let matched = document_matches(&self.docs[i], term);
            assert(self@[i as int] == self.docs@[i as int]@);
            if matched {
                let d = self.docs[i].duplicate();
                r.push(d);
                assert(records_of(r@) =~= records_of(r_before).push(self@[i as int]));
            } else {
                assert(records_of(r@) =~= records_of(r_before));
            }
            i = i + 1;
            proof {
                assert(pred(self@[i - 1]) == matched);
                let now = self@.subrange(0, i as int);
                reveal(Seq::filter);
                assert(now.len() > 0);
                assert(now.filter(pred) == (if pred(now.last()) {
                    now.drop_last().filter(pred).push(now.last())
                } else {
                    now.drop_last().filter(pred)
                }));
                assert(now.drop_last() =~= before);
                assert(now.last() == self@[i - 1]);
                assert(records_of(r@) =~= now.filter(pred));
            }
        }
        assert(self@.subrange(0, i as int) =~= self@);
        r
    }

    /// Replaces every field but the identifier of the document written `id`.
    pub fn update(&mut self, id: &str, input: DocumentInput) -> (r: Result<(), RepoError>)
        requires
            old(self).wf(),
        ensures
            final(self).wf(),
            !is_id_text(id@) ==> r == Err::<(), RepoError>(RepoError::BadRequest)
                && final(self)@ == old(self)@,
            is_id_text(id@) && !has_id(old(self)@, id_bytes_of(id@)) ==> r == Err::<
                (),
                RepoError,
            >(RepoError::NotFound) && final(self)@ == old(self)@,
            is_id_text(id@) && has_id(old(self)@, id_bytes_of(id@)) ==> r == Ok::<(), RepoError>(())
                && final(self)@ == old(self)@.update(
                index_of(old(self)@, id_bytes_of(id@)),
                Record { id: id_bytes_of(id@), fields: input@ },
            ),
    {
        let key = match DocId::parse(id) {
            Some(k) => k,
            None => return Err(RepoError::BadRequest),
        };
        match self.find(&key) {
            Some(i) => {
                let doc = Document::from_input(key, input);
                self.docs.set(i, doc);
                proof {
                    assert(self@ =~= old(self)@.update(
                        i as int,
                        Record { id: key@, fields: input@ },
                    ));
                }
                Ok(())
            },
            None => Err(RepoError::NotFound),
        }
    }

    /// Removes the document written `id`.
    pub fn delete(&mut self, id: &str) -> (r: Result<(), RepoError>)
        requires
            old(self).wf(),
        ensures
            final(self).wf(),
            !is_id_text(id@) ==> r == Err::<(), RepoError>(RepoError::BadRequest)
                && final(self)@ == old(self)@,
            is_id_text(id@) && !has_id(old(self)@, id_bytes_of(id@)) ==> r == Err::<
                (),
                RepoError,
            >(RepoError::NotFound) && final(self)@ == old(self)@,
            is_id_text(id@) && has_id(old(self)@, id_bytes_of(id@)) ==> r == Ok::<(), RepoError>(())
                && final(self)@ == old(self)@.remove(index_of(old(self)@, id_bytes_of(id@))),
    {
        let key = match DocId::parse(id) {
            Some(k) => k,
            None => return Err(RepoError::BadRequest),
        };
        match self.find(&key) {
            Some(i) => {
                self.docs.remove(i);
                proof {
                    assert(self@ =~= old(self)@.remove(i as int));
                    lemma_remove_keeps_unique(old(self)@, i as int);
                }
                Ok(())
            },
            None => Err(RepoError::NotFound),
        }
    }
}

/// A document created with fields `fields` under the fresh identifier `id` is
/// what a lookup of `id` then returns, and identifiers stay unique.
pub proof fn lemma_create_then_get(before: Seq<Record>, id: Seq<u8>, fields: Fields)
    requires
        ids_unique(before),
        !has_id(before, id),
    ensures
        ids_unique(before.push(Record { id, fields })),
        has_id(before.push(Record { id, fields }), id),
        before.push(Record { id, fields })[index_of(before.push(Record { id, fields }), id)]
            == (Record { id, fields }),
{
    let after = before.push(Record { id, fields });
    assert forall|i: int, j: int|
        0 <= i < after.len() && 0 <= j < after.len() && i != j implies after[i].id
        != after[j].id by {
        if i < before.len() && j < before.len() {
            assert(after[i] == before[i] && after[j] == before[j]);
        } else if i < before.len() {
            assert(after[i] == before[i]);
        } else {
            assert(after[j] == before[j]);
        }
    }
    lemma_index_of_unique(after, id, before.len() as int);
}

/// A document with a tag equal, ignoring case, to the search term is among the
/// results of that search.
pub proof fn lemma_search_finds_tag(s: Seq<Record>, term: Seq<char>, i: int, k: int)
    requires
        0 <= i < s.len(),
        0 <= k < s[i].fields.tags.len(),
        lower_of(s[i].fields.tags[k]) == lower_of(term),
    ensures
        search_result(s, term).contains(s[i]),
{
    broadcast use vstd::seq_lib::group_filter_ensures;

    let q = lower_of(term);
    lemma_substring_trivial(q);
    assert(is_substring(q, lower_of(s[i].fields.tags[k])));
    assert(record_matches(s[i], term));
}

/// A document in whose title, content and tags the term does not occur,
/// ignoring case, is not among the results of that search.
pub proof fn lemma_search_skips_absent(s: Seq<Record>, term: Seq<char>, r: Record)
    requires
        !is_substring(lower_of(term), lower_of(r.fields.title)),
        !is_substring(lower_of(term), lower_of(r.fields.content)),
        forall|k: int|
            0 <= k < r.fields.tags.len() ==> !is_substring(
                lower_of(term),
                #[trigger] lower_of(r.fields.tags[k]),
            ),
    ensures
        !search_result(s, term).contains(r),
{
    broadcast use vstd::seq_lib::group_filter_ensures;

    let pred = |x: Record| record_matches(x, term);
    if search_result(s, term).contains(r) {
        let j = choose|j: int|
            0 <= j < search_result(s, term).len() && search_result(s, term)[j] == r;
        assert(pred(search_result(s, term)[j]));
    }
}

/// After a delete of the identifier `id`, whether or not it found a record,
/// no record holds `id`: a second delete of it finds nothing.
pub proof fn lemma_delete_twice(before: Seq<Record>, id: Seq<u8>)
    requires
        ids_unique(before),
    ensures
        !has_id(
            if has_id(before, id) {
                before.remove(index_of(before, id))
            } else {
                before
            },
            id,
        ),
{
    if has_id(before, id) {
        let k = index_of(before, id);
        let after = before.remove(k);
        if has_id(after, id) {
            let a = choose|a: int| 0 <= a < after.len() && after[a].id == id;
            assert(after[a] == before[if a < k { a } else { a + 1 }]);
        }
    }
}

proof fn lemma_remove_keeps_unique(s: Seq<Record>, i: int)
    requires
        ids_unique(s),
        0 <= i < s.len(),
    ensures
        ids_unique(s.remove(i)),
{
    let t = s.remove(i);
    assert forall|a: int, b: int| 0 <= a < t.len() && 0 <= b < t.len() && a != b implies t[a].id
        != t[b].id by {
        let sa = if a < i { a } else { a + 1 };
        let sb = if b < i { b } else { b + 1 };
        assert(t[a] == s[sa]);
        assert(t[b] == s[sb]);
    }
}

} // verus!
