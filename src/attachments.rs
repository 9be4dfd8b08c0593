//! PDF attachments: at most one per document, each a metadata record that
//! names one blob, stored under a server-generated name.
use vstd::prelude::*;
use crate::error::RepoError;
use crate::object_id::is_lower_hex_digit;

verus! {

/// The size limit that a deployment uses by default: ten mebibytes.
pub const DEFAULT_SIZE_LIMIT: usize = 10 * 1024 * 1024;

/// An attachment record as values.
pub struct Binding {
    pub id: Seq<char>,
    pub document_id: Seq<char>,
    pub storage_name: Seq<char>,
    pub uploaded_at: i64,
}

/// A blob as values: its name and its bytes.
pub struct StoredBlob {
    pub name: Seq<char>,
    pub bytes: Seq<u8>,
}

/// The attachment records and the blob directory, as values.
pub struct AttachmentState {
    pub records: Seq<Binding>,
    pub blobs: Seq<StoredBlob>,
}

/// The metadata record of an attachment.
#[derive(Debug)]
pub struct AttachmentRecord {
    pub id: String,
    pub document_id: String,
    pub storage_name: String,
    pub uploaded_at: i64,
}

impl View for AttachmentRecord {
    type V = Binding;

    open spec fn view(&self) -> Binding {
        Binding {
            id: self.id@,
            document_id: self.document_id@,
            storage_name: self.storage_name@,
            uploaded_at: self.uploaded_at,
        }
    }
}

/// A stored blob: its name and its bytes.
#[derive(Debug)]
pub struct Blob {
    pub name: String,
    pub bytes: Vec<u8>,
}

impl View for Blob {
    type V = StoredBlob;

    open spec fn view(&self) -> StoredBlob {
        StoredBlob { name: self.name@, bytes: self.bytes@ }
    }
}

pub open spec fn bindings_of(v: Seq<AttachmentRecord>) -> Seq<Binding> {
    v.map_values(|r: AttachmentRecord| r@)
}

pub open spec fn blobs_of(v: Seq<Blob>) -> Seq<StoredBlob> {
    v.map_values(|b: Blob| b@)
}

/// A generated blob key: thirty-six lower-case hex digits and hyphens.
pub open spec fn is_blob_key(s: Seq<char>) -> bool {
    &&& s.len() == 36
    &&& forall|i: int| 0 <= i < 36 ==> is_lower_hex_digit(#[trigger] s[i]) || s[i] == '-'
}

/// The blob name made of a key: the key followed by `.pdf`.
pub open spec fn blob_name_of(key: Seq<char>) -> Seq<char> {
    key + seq!['.', 'p', 'd', 'f']
}

/// A blob name as the store makes it; it never holds a path separator.
pub open spec fn is_blob_name(s: Seq<char>) -> bool {
    &&& s.len() == 40
    &&& is_blob_key(s.subrange(0, 36))
    &&& s.subrange(36, 40) == seq!['.', 'p', 'd', 'f']
}

/// Some record belongs to document `d`.
pub open spec fn has_doc(s: Seq<Binding>, d: Seq<char>) -> bool {
    exists|k: int| 0 <= k < s.len() && s[k].document_id == d
}

/// The position of the record of document `d`, where there is one.
pub open spec fn doc_index(s: Seq<Binding>, d: Seq<char>) -> int {
    choose|k: int| 0 <= k < s.len() && s[k].document_id == d
}

/// Some record names the blob `name`.
pub open spec fn names_blob(s: Seq<Binding>, name: Seq<char>) -> bool {
    exists|k: int| 0 <= k < s.len() && s[k].storage_name == name
}

/// Some blob is called `name`.
pub open spec fn has_blob(b: Seq<StoredBlob>, name: Seq<char>) -> bool {
    exists|j: int| 0 <= j < b.len() && b[j].name == name
}

/// The position of the blob called `name`, where there is one.
pub open spec fn blob_index(b: Seq<StoredBlob>, name: Seq<char>) -> int {
    choose|j: int| 0 <= j < b.len() && b[j].name == name
}

/// At most one record per document, and no two records name the same blob.
pub open spec fn records_unique(s: Seq<Binding>) -> bool {
    forall|i: int, j: int|
        0 <= i < s.len() && 0 <= j < s.len() && i != j ==> s[i].document_id != s[j].document_id
            && s[i].storage_name != s[j].storage_name
}

/// No two blobs share a name.
pub open spec fn blob_names_unique(b: Seq<StoredBlob>) -> bool {
    forall|i: int, j: int| 0 <= i < b.len() && 0 <= j < b.len() && i != j ==> b[i].name != b[j].name
}

/// Every record's blob is present, and every blob has its record: no
/// dangling record and no orphan blob.
pub open spec fn consistent(st: AttachmentState) -> bool {
    &&& forall|k: int| 0 <= k < st.records.len() ==> has_blob(st.blobs, #[trigger] st.records[k].storage_name)
    &&& forall|j: int| 0 <= j < st.blobs.len() ==> names_blob(st.records, #[trigger] st.blobs[j].name)
}

/// The name is in use, by a blob or by a record.
pub open spec fn name_taken(st: AttachmentState, name: Seq<char>) -> bool {
    has_blob(st.blobs, name) || names_blob(st.records, name)
}

/// The blobs without the one called `name`.
pub open spec fn without_blob(b: Seq<StoredBlob>, name: Seq<char>) -> Seq<StoredBlob> {
    if has_blob(b, name) {
        b.remove(blob_index(b, name))
    } else {
        b
    }
}

/// The state without document `d`'s record and the blob that it names.
pub open spec fn without_doc(st: AttachmentState, d: Seq<char>) -> AttachmentState {
    if has_doc(st.records, d) {
        AttachmentState {
            records: st.records.remove(doc_index(st.records, d)),
            blobs: without_blob(st.blobs, st.records[doc_index(st.records, d)].storage_name),
        }
    } else {
        st
    }
}

/// What a fetch of document `d`'s attachment yields: nothing where there is
/// no record or its blob is missing.
pub open spec fn fetched(st: AttachmentState, d: Seq<char>) -> Option<Seq<u8>> {
    if has_doc(st.records, d) && has_blob(
        st.blobs,
        st.records[doc_index(st.records, d)].storage_name,
    ) {
        Some(st.blobs[blob_index(st.blobs, st.records[doc_index(st.records, d)].storage_name)].bytes)
    } else {
        None
    }
}

/// `after` is `before` once `bytes` has been uploaded for document `d` under
/// the unused blob name `name`, with record id `id` and time `at`: the earlier
/// record of `d` and its blob are gone, and the new record and blob come last.
pub open spec fn uploaded_as(
    before: AttachmentState,
    after: AttachmentState,
    d: Seq<char>,
    bytes: Seq<u8>,
    name: Seq<char>,
    id: Seq<char>,
    at: i64,
) -> bool {
    &&& !name_taken(before, name)
    &&& after.records == without_doc(before, d).records.push(
        Binding { id, document_id: d, storage_name: name, uploaded_at: at },
    )
    &&& after.blobs == without_doc(before, d).blobs.push(StoredBlob { name, bytes })
}

/// `after` is `before` once `bytes` has been uploaded for document `d` under
/// some unused blob name.
pub open spec fn uploaded(
    before: AttachmentState,
    after: AttachmentState,
    d: Seq<char>,
    bytes: Seq<u8>,
) -> bool {
    &&& after.records.len() > 0
    &&& uploaded_as(
        before,
        after,
        d,
        bytes,
        after.records.last().storage_name,
        after.records.last().id,
        after.records.last().uploaded_at,
    )
}

/// The element at `a` of a sequence with position `k` removed.
pub proof fn lemma_remove_index<A>(s: Seq<A>, k: int, a: int)
    requires
        0 <= k < s.len(),
        0 <= a < s.len() - 1,
    ensures
        s.remove(k)[a] == s[if a < k { a } else { a + 1 }],
{
}

/// Removing a record keeps records unique.
pub proof fn lemma_records_remove(s: Seq<Binding>, k: int)
    requires
        records_unique(s),
        0 <= k < s.len(),
    ensures
        records_unique(s.remove(k)),
        forall|a: int| 0 <= a < s.len() - 1 ==> #[trigger] s.remove(k)[a] == s[if a < k { a } else { a + 1 }],
{
    let t = s.remove(k);
    assert forall|a: int| 0 <= a < s.len() - 1 implies #[trigger] t[a] == s[if a < k { a } else { a + 1 }] by {
        lemma_remove_index(s, k, a);
    }
}

/// Removing a blob by name keeps names unique, leaves no blob of that name,
/// and keeps every other blob.
pub proof fn lemma_without_blob(b: Seq<StoredBlob>, name: Seq<char>)
    requires
        blob_names_unique(b),
    ensures
        blob_names_unique(without_blob(b, name)),
        !has_blob(without_blob(b, name), name),
        forall|n: Seq<char>| #[trigger] has_blob(without_blob(b, name), n) ==> has_blob(b, n),
        forall|n: Seq<char>| n != name && #[trigger] has_blob(b, n) ==> has_blob(without_blob(b, name), n),
        forall|j: int| 0 <= j < without_blob(b, name).len() ==> #[trigger] without_blob(b, name)[j].name != name,
{
    if has_blob(b, name) {
        let k = blob_index(b, name);
        let t = b.remove(k);
        assert forall|a: int| 0 <= a < t.len() implies #[trigger] t[a] == b[if a < k { a } else { a + 1 }] by {
            lemma_remove_index(b, k, a);
        }
        assert forall|j: int| 0 <= j < t.len() implies #[trigger] t[j].name != name by {
            assert(t[j] == b[if j < k { j } else { j + 1 }]);
        }
        assert forall|n: Seq<char>| #[trigger] has_blob(t, n) implies has_blob(b, n) by {
            let j = choose|j: int| 0 <= j < t.len() && t[j].name == n;
            assert(t[j] == b[if j < k { j } else { j + 1 }]);
        }
        assert forall|n: Seq<char>| n != name && #[trigger] has_blob(b, n) implies has_blob(t, n) by {
            let j = choose|j: int| 0 <= j < b.len() && b[j].name == n;
            assert(j != k);
            let a = if j < k { j } else { j - 1 };
            assert(t[a] == b[j]);
        }
    }
}

/// Removing document `d`'s record and blob keeps the store's uniqueness, and
/// leaves no record for `d` and no use of any name that `before` did not use.
pub proof fn lemma_without_doc(st: AttachmentState, d: Seq<char>)
    requires
        records_unique(st.records),
        blob_names_unique(st.blobs),
    ensures
        records_unique(without_doc(st, d).records),
        blob_names_unique(without_doc(st, d).blobs),
        !has_doc(without_doc(st, d).records, d),
        forall|n: Seq<char>| #[trigger] name_taken(without_doc(st, d), n) ==> name_taken(st, n),
{
    if has_doc(st.records, d) {
        let k = doc_index(st.records, d);
        let name = st.records[k].storage_name;
        lemma_records_remove(st.records, k);
        lemma_without_blob(st.blobs, name);
        let t = st.records.remove(k);
        if has_doc(t, d) {
            let a = choose|a: int| 0 <= a < t.len() && t[a].document_id == d;
            assert(t[a] == st.records[if a < k { a } else { a + 1 }]);
        }
        assert forall|n: Seq<char>| #[trigger] name_taken(without_doc(st, d), n) implies name_taken(st, n) by {
            if names_blob(t, n) {
                let a = choose|a: int| 0 <= a < t.len() && t[a].storage_name == n;
                assert(t[a] == st.records[if a < k { a } else { a + 1 }]);
            }
        }
    }
}

/// Where records are unique, the record of `d` sits at `doc_index`.
pub proof fn lemma_doc_index_unique(s: Seq<Binding>, d: Seq<char>, k: int)
    requires
        records_unique(s),
        0 <= k < s.len(),
        s[k].document_id == d,
    ensures
        has_doc(s, d),
        doc_index(s, d) == k,
{
    assert(has_doc(s, d));
}

/// Where blob names are unique, the blob called `name` sits at `blob_index`.
pub proof fn lemma_blob_index_unique(b: Seq<StoredBlob>, name: Seq<char>, j: int)
    requires
        blob_names_unique(b),
        0 <= j < b.len(),
        b[j].name == name,
    ensures
        has_blob(b, name),
        blob_index(b, name) == j,
{
    assert(has_blob(b, name));
}

/// Bytes uploaded for a document are what a fetch of its attachment then yields.
pub proof fn lemma_upload_then_fetch(
    before: AttachmentState,
    after: AttachmentState,
    d: Seq<char>,
    bytes: Seq<u8>,
)
    requires
        records_unique(before.records),
        blob_names_unique(before.blobs),
        uploaded(before, after, d, bytes),
    ensures
        fetched(after, d) == Some(bytes),
{
    lemma_without_doc(before, d);
    let base = without_doc(before, d);
    let name = after.records.last().storage_name;
    let n = base.records.len() as int;
    assert(after.records[n].document_id == d);
    assert forall|a: int| 0 <= a < n implies #[trigger] after.records[a].document_id != d by {
        assert(after.records[a] == base.records[a]);
    }
    assert(has_doc(after.records, d));
    let k = doc_index(after.records, d);
    assert(k == n);
    let m = base.blobs.len() as int;
    assert(after.blobs[m].name == name);
    assert forall|a: int| 0 <= a < m implies #[trigger] after.blobs[a].name != name by {
        assert(after.blobs[a] == base.blobs[a]);
        assert(has_blob(base.blobs, base.blobs[a].name));
        assert(name_taken(base, base.blobs[a].name));
    }
    assert(has_blob(after.blobs, name));
    let j = blob_index(after.blobs, name);
    assert(j == m);
}

/// After a delete of the attachment of `d` that succeeded, or found no record,
/// `d` has no record: a second delete finds nothing.
pub proof fn lemma_attachment_delete_twice(before: Seq<Binding>, d: Seq<char>)
    requires
        records_unique(before),
    ensures
        !has_doc(
            if has_doc(before, d) {
                before.remove(doc_index(before, d))
            } else {
                before
            },
            d,
        ),
{
    if has_doc(before, d) {
        let k = doc_index(before, d);
        lemma_records_remove(before, k);
        let t = before.remove(k);
        if has_doc(t, d) {
            let a = choose|a: int| 0 <= a < t.len() && t[a].document_id == d;
            assert(t[a] == before[if a < k { a } else { a + 1 }]);
        }
    }
}

/// Relies on uuid's `Uuid::new_v4` for a random identifier and on its `Display`,
/// which writes the hyphenated lower-case form: thirty-six hex digits and hyphens.
#[verifier::external_body]
fn new_blob_key() -> (r: String)
    ensures
        is_blob_key(r@),
{
    uuid::Uuid::new_v4().to_string()
}

/// Relies on bson's `DateTime::now` and `timestamp_millis`: the current time in
/// milliseconds since the epoch; nothing is promised of its value.
#[verifier::external_body]
fn now_millis() -> (r: i64) {
    mongodb::bson::DateTime::now().timestamp_millis()
}

/// The attachment records and the blob directory. Records name blobs; a
/// blob can go missing behind a record (a crash between the steps of an
/// operation), and the operations report that case.
pub struct AttachmentStore {
    records: Vec<AttachmentRecord>,
    blobs: Vec<Blob>,
    size_limit: usize,
}

impl View for AttachmentStore {
    type V = AttachmentState;

    closed spec fn view(&self) -> AttachmentState {
        AttachmentState { records: bindings_of(self.records@), blobs: blobs_of(self.blobs@) }
    }
}

fn copy_bytes(b: &Vec<u8>) -> (r: Vec<u8>)
    ensures
        r@ == b@,
{
    let mut r: Vec<u8> = Vec::new();
    let mut i: usize = 0;
    while i < b.len()
        invariant
            0 <= i <= b@.len(),
            r@ == b@.subrange(0, i as int),
        decreases b@.len() - i,
    {
        r.push(b[i]);
        i = i + 1;
        assert(r@ =~= b@.subrange(0, i as int));
    }
    assert(b@.subrange(0, i as int) =~= b@);
    r
}

/// Whether no two records share a document or a blob name.
fn check_records_unique(v: &Vec<AttachmentRecord>) -> (r: bool)
    ensures
        r == records_unique(bindings_of(v@)),
{
    let ghost s = bindings_of(v@);
    let mut i: usize = 0;
    while i < v.len()
        invariant
            s == bindings_of(v@),
            0 <= i <= v@.len(),
            forall|a: int, b: int| 0 <= a < i && 0 <= b < v@.len() && a != b ==> s[a].document_id
                != s[b].document_id && s[a].storage_name != s[b].storage_name,
        decreases v@.len() - i,
    {
        let mut j: usize = 0;
        while j < v.len()
            invariant
                s == bindings_of(v@),
                0 <= i < v@.len(),
                0 <= j <= v@.len(),
                forall|a: int, b: int| 0 <= a < i && 0 <= b < v@.len() && a != b ==> s[a].document_id
                    != s[b].document_id && s[a].storage_name != s[b].storage_name,
                forall|b: int| 0 <= b < j && b != i ==> s[i as int].document_id != s[b].document_id
                    && s[i as int].storage_name != s[b].storage_name,
            decreases v@.len() - j,
        {
            if i != j && (v[i].document_id == v[j].document_id || v[i].storage_name
                == v[j].storage_name) {
                assert(s[i as int] == v@[i as int]@ && s[j as int] == v@[j as int]@);
                return false;
            }
            assert(s[i as int] == v@[i as int]@ && s[j as int] == v@[j as int]@);
            j = j + 1;
        }
        i = i + 1;
    }
    true
}

/// Whether no two blobs share a name.
fn check_blob_names_unique(v: &Vec<Blob>) -> (r: bool)
    ensures
        r == blob_names_unique(blobs_of(v@)),
{
    let ghost s = blobs_of(v@);
    let mut i: usize = 0;
    while i < v.len()
        invariant
            s == blobs_of(v@),
            0 <= i <= v@.len(),
            forall|a: int, b: int| 0 <= a < i && 0 <= b < v@.len() && a != b ==> s[a].name != s[b].name,
        decreases v@.len() - i,
    {
        let mut j: usize = 0;
        while j < v.len()
            invariant
                s == blobs_of(v@),
                0 <= i < v@.len(),
                0 <= j <= v@.len(),
                forall|a: int, b: int| 0 <= a < i && 0 <= b < v@.len() && a != b ==> s[a].name != s[b].name,
                forall|b: int| 0 <= b < j && b != i ==> s[i as int].name != s[b].name,
            decreases v@.len() - j,
        {
            assert(s[i as int] == v@[i as int]@ && s[j as int] == v@[j as int]@);
            if i != j && v[i].name == v[j].name {
                return false;
            }
            j = j + 1;
        }
        i = i + 1;
    }
    true
}

impl AttachmentStore {
    /// The store's invariant: at most one record per document, no blob name
    /// used twice by records or by blobs.
    pub open spec fn wf(&self) -> bool {
        &&& records_unique(self@.records)
        &&& blob_names_unique(self@.blobs)
    }

    /// The largest upload accepted, in bytes.
    pub closed spec fn limit(&self) -> nat {
        self.size_limit as nat
    }

    /// An empty store that accepts uploads of at most `size_limit` bytes.
    pub fn new(size_limit: usize) -> (r: AttachmentStore)
        ensures
            r.wf(),
            consistent(r@),
            r@.records == Seq::<Binding>::empty(),
            r@.blobs == Seq::<StoredBlob>::empty(),
            r.limit() == size_limit,
    {
        let r = AttachmentStore { records: Vec::new(), blobs: Vec::new(), size_limit };
        assert(r@.records =~= Seq::<Binding>::empty());
        assert(r@.blobs =~= Seq::<StoredBlob>::empty());
        r
    }

    /// A store holding records and blobs read back from durable storage; they
    /// are refused when a document, or a blob name, occurs twice.
    pub fn restore(records: Vec<AttachmentRecord>, blobs: Vec<Blob>, size_limit: usize) -> (r: Result<
        AttachmentStore,
        RepoError,
    >)
        ensures
            (records_unique(bindings_of(records@)) && blob_names_unique(blobs_of(blobs@))) == r is Ok,
            r matches Ok(s) ==> s.wf() && s@.records == bindings_of(records@) && s@.blobs
                == blobs_of(blobs@) && s.limit() == size_limit,
            r matches Err(e) ==> e == RepoError::StoreError,
    {
        if !check_records_unique(&records) || !check_blob_names_unique(&blobs) {
            return Err(RepoError::StoreError);
        }
        Ok(AttachmentStore { records, blobs, size_limit })
    }

    /// The largest upload accepted, in bytes.
    pub fn size_limit(&self) -> (r: usize)
        ensures
            r == self.limit(),
    {
        self.size_limit
    }

    fn find_document(&self, document_id: &str) -> (r: Option<usize>)
        requires
            self.wf(),
        ensures
            r.is_none() == !has_doc(self@.records, document_id@),
            r matches Some(k) ==> k < self@.records.len() && k == doc_index(self@.records, document_id@),
    {
        let wanted = String::from_str(document_id);
        let mut k: usize = 0;
        while k < self.records.len()
            invariant
                self.wf(),
                wanted@ == document_id@,
                0 <= k <= self.records@.len(),
                forall|j: int| 0 <= j < k ==> self@.records[j].document_id != document_id@,
            decreases self.records@.len() - k,
        {
            assert(self@.records[k as int] == self.records@[k as int]@);
            if self.records[k].document_id == wanted {
                proof {
                    lemma_doc_index_unique(self@.records, document_id@, k as int);
                }
                return Some(k);
            }
            k = k + 1;
        }
        None
    }

    fn find_blob(&self, name: &String) -> (r: Option<usize>)
        requires
            self.wf(),
        ensures
            r.is_none() == !has_blob(self@.blobs, name@),
            r matches Some(j) ==> j < self@.blobs.len() && j == blob_index(self@.blobs, name@),
    {
        let mut j: usize = 0;
        while j < self.blobs.len()
            invariant
                self.wf(),
                0 <= j <= self.blobs@.len(),
                forall|i: int| 0 <= i < j ==> self@.blobs[i].name != name@,
            decreases self.blobs@.len() - j,
        {
            assert(self@.blobs[j as int] == self.blobs@[j as int]@);
            if self.blobs[j].name == *name {
                proof {
                    lemma_blob_index_unique(self@.blobs, name@, j as int);
                }
                return Some(j);
            }
            j = j + 1;
        }
        None
    }

    fn name_in_records(&self, name: &String) -> (r: bool)
        ensures
            r == names_blob(self@.records, name@),
    {
        let mut k: usize = 0;
        while k < self.records.len()
            invariant
                0 <= k <= self.records@.len(),
                forall|j: int| 0 <= j < k ==> self@.records[j].storage_name != name@,
            decreases self.records@.len() - k,
        {
            assert(self@.records[k as int] == self.records@[k as int]@);
            if self.records[k].storage_name == *name {
                return true;
            }
            k = k + 1;
        }
        false
    }

    /// Takes out the record of `document_id` and the blob that it names.
    fn remove_document(&mut self, document_id: &str)
        requires
            old(self).wf(),
        ensures
            final(self).wf(),
            final(self)@ == without_doc(old(self)@, document_id@),
            final(self).limit() == old(self).limit(),
    {
        let ghost before = self@;
        proof {
            lemma_without_doc(before, document_id@);
        }
        match self.find_document(document_id) {
            Some(k) => {
                let ghost name = self@.records[k as int].storage_name;
                assert(self.records@[k as int]@.storage_name == name);
                match self.find_blob(&self.records[k].storage_name) {
                    Some(j) => {
                        self.blobs.remove(j);
                    },
                    None => {},
                }
                self.records.remove(k);
                proof {
                    lemma_without_blob(before.blobs, name);
                    assert(self@.blobs =~= without_blob(before.blobs, name));
                    assert(self@.records =~= before.records.remove(k as int));
                }
            },
            None => {},
        }
    }

    /// Stores `bytes` as the attachment of `document_id` under the blob name
    /// `key` followed by `.pdf`, with record id `key` and time `uploaded_at`,
    /// replacing the document's earlier record and blob, and returns a
    /// confirmation. An upload over the size limit, or under a name in use, is
    /// refused whole.
    pub fn upload_with_key(
        &mut self,
        document_id: &str,
        key: String,
        bytes: Vec<u8>,
        uploaded_at: i64,
    ) -> (r: Result<String, RepoError>)
        requires
            old(self).wf(),
            is_blob_key(key@),
        ensures
            final(self).wf(),
            final(self).limit() == old(self).limit(),
            bytes@.len() > old(self).limit() ==> r == Err::<String, RepoError>(RepoError::TooLarge)
                && final(self)@ == old(self)@,
            bytes@.len() <= old(self).limit() && name_taken(old(self)@, blob_name_of(key@)) ==> r
                == Err::<String, RepoError>(RepoError::IoError) && final(self)@ == old(self)@,
            bytes@.len() <= old(self).limit() && !name_taken(old(self)@, blob_name_of(key@)) ==> (
            r matches Ok(msg) && msg@ == "Uploaded PDF for document ID "@ + document_id@)
                && uploaded_as(
                old(self)@,
                final(self)@,
                document_id@,
                bytes@,
                blob_name_of(key@),
                key@,
                uploaded_at,
            ),
            is_blob_name(blob_name_of(key@)),
            consistent(old(self)@) && r is Ok ==> consistent(final(self)@),
    {
        proof {
            assert(blob_name_of(key@).subrange(0, 36) =~= key@);
            assert(blob_name_of(key@).subrange(36, 40) =~= seq!['.', 'p', 'd', 'f']);
        }
        if bytes.len() > self.size_limit {
            return Err(RepoError::TooLarge);
        }
        let storage_name = key.clone().concat(".pdf");
        proof {
            reveal_strlit(".pdf");
            assert(storage_name@ =~= blob_name_of(key@));
        }
        if self.find_blob(&storage_name).is_some() || self.name_in_records(&storage_name) {
            return Err(RepoError::IoError);
        }
        let ghost before = self@;
        self.remove_document(document_id);
        let ghost base = self@;
        let record = AttachmentRecord {
            id: key,
            document_id: String::from_str(document_id),
            storage_name: storage_name.clone(),
            uploaded_at,
        };
        let blob = Blob { name: storage_name, bytes };
        self.blobs.push(blob);
        self.records.push(record);
        proof {
            let name = blob_name_of(key@);
            let fresh = Binding { id: key@, document_id: document_id@, storage_name: name, uploaded_at };
            assert(self@.records =~= base.records.push(fresh));
            assert(self@.blobs =~= base.blobs.push(StoredBlob { name, bytes: bytes@ }));
            lemma_without_doc(before, document_id@);
            lemma_upload_keeps_unique(base, name, document_id@, before);
            lemma_upload_keeps_consistent(before, document_id@, fresh, bytes@);
        }
        let msg = String::from_str("Uploaded PDF for document ID ").concat(document_id);
        Ok(msg)
    }

    /// Stores `bytes` as the attachment of `document_id` under a freshly
    /// generated blob name, replacing the document's earlier record and blob,
    /// and returns a confirmation. An upload over the size limit is refused whole.
    pub fn upload(&mut self, document_id: &str, bytes: Vec<u8>) -> (r: Result<String, RepoError>)
        requires
            old(self).wf(),
        ensures
            final(self).wf(),
            final(self).limit() == old(self).limit(),
            bytes@.len() > old(self).limit() ==> r == Err::<String, RepoError>(RepoError::TooLarge)
                && final(self)@ == old(self)@,
            r matches Ok(msg) ==> bytes@.len() <= old(self).limit() && uploaded(
                old(self)@,
                final(self)@,
                document_id@,
                bytes@,
            ) && is_blob_name(final(self)@.records.last().storage_name) && msg@
                == "Uploaded PDF for document ID "@ + document_id@,
            r matches Err(e) ==> final(self)@ == old(self)@ && (e == RepoError::TooLarge
                <==> bytes@.len() > old(self).limit()) && (e == RepoError::TooLarge || e
                == RepoError::IoError),
            bytes@.len() <= old(self).limit() && old(self)@.records.len() == 0
                && old(self)@.blobs.len() == 0 ==> r is Ok,
            consistent(old(self)@) && r is Ok ==> consistent(final(self)@),
    {
        let key = new_blob_key();
        let ghost k = key@;
        let at = now_millis();
        let r = self.upload_with_key(document_id, key, bytes, at);
        proof {
            if r is Ok {
                let name = blob_name_of(k);
                assert(final(self)@.records.last().storage_name == name);
            }
        }
        r
    }

    /// The bytes of the attachment of `document_id`; not found where there is
    /// no record or its blob is missing.
    pub fn fetch(&self, document_id: &str) -> (r: Result<Vec<u8>, RepoError>)
        requires
            self.wf(),
        ensures
            fetched(self@, document_id@) matches Some(b) ==> (r matches Ok(v) && v@ == b),
            fetched(self@, document_id@) is None ==> r == Err::<Vec<u8>, RepoError>(
                RepoError::NotFound,
            ),
    {
        let k = match self.find_document(document_id) {
            Some(k) => k,
            None => return Err(RepoError::NotFound),
        };
        assert(self@.records[k as int] == self.records@[k as int]@);
        match self.find_blob(&self.records[k].storage_name) {
            Some(j) => {
                assert(self@.blobs[j as int] == self.blobs@[j as int]@);
                Ok(copy_bytes(&self.blobs[j].bytes))
            },
            None => Err(RepoError::NotFound),
        }
    }

    /// Removes the attachment of `document_id`: its blob first, then its record.
    /// Where the blob is missing the record stays, as a trace, and the failure
    /// is reported.
    pub fn delete(&mut self, document_id: &str) -> (r: Result<(), RepoError>)
        requires
            old(self).wf(),
        ensures
            final(self).wf(),
            final(self).limit() == old(self).limit(),
            !has_doc(old(self)@.records, document_id@) ==> r == Err::<(), RepoError>(
                RepoError::NotFound,
            ) && final(self)@ == old(self)@,
            has_doc(old(self)@.records, document_id@) && !has_blob(
                old(self)@.blobs,
                old(self)@.records[doc_index(old(self)@.records, document_id@)].storage_name,
            ) ==> r == Err::<(), RepoError>(RepoError::IoError) && final(self)@ == old(self)@,
            has_doc(old(self)@.records, document_id@) && has_blob(
                old(self)@.blobs,
                old(self)@.records[doc_index(old(self)@.records, document_id@)].storage_name,
            ) ==> r == Ok::<(), RepoError>(()) && final(self)@ == without_doc(
                old(self)@,
                document_id@,
            ),
            consistent(old(self)@) ==> consistent(final(self)@),
    {
        let k = match self.find_document(document_id) {
            Some(k) => k,
            None => return Err(RepoError::NotFound),
        };
        assert(self@.records[k as int] == self.records@[k as int]@);
        match self.find_blob(&self.records[k].storage_name) {
            Some(_) => {
                let ghost before = self@;
                self.remove_document(document_id);
                proof {
                    lemma_delete_keeps_consistent(before, document_id@);
                }
                Ok(())
            },
            None => Err(RepoError::IoError),
        }
    }
}

proof fn lemma_upload_keeps_unique(
    base: AttachmentState,
    name: Seq<char>,
    d: Seq<char>,
    before: AttachmentState,
)
    requires
        base == without_doc(before, d),
        records_unique(base.records),
        blob_names_unique(base.blobs),
        !has_doc(base.records, d),
        !name_taken(before, name),
        forall|n: Seq<char>| #[trigger] name_taken(base, n) ==> name_taken(before, n),
    ensures
        forall|b: Binding| b.document_id == d && b.storage_name == name ==> records_unique(#[trigger] base.records.push(b)),
        forall|sb: StoredBlob| sb.name == name ==> blob_names_unique(#[trigger] base.blobs.push(sb)),
{
    assert(!name_taken(base, name));
    assert forall|b: Binding| b.document_id == d && b.storage_name == name implies records_unique(#[trigger] base.records.push(b)) by {
        let t = base.records.push(b);
        assert forall|i: int, j: int| 0 <= i < t.len() && 0 <= j < t.len() && i != j implies t[i].document_id
            != t[j].document_id && t[i].storage_name != t[j].storage_name by {
            let n = base.records.len() as int;
            if i < n && j < n {
                assert(t[i] == base.records[i] && t[j] == base.records[j]);
            } else if i < n {
                assert(t[i] == base.records[i]);
            } else {
                assert(t[j] == base.records[j]);
            }
        }
    }
    assert forall|sb: StoredBlob| sb.name == name implies blob_names_unique(#[trigger] base.blobs.push(sb)) by {
        let t = base.blobs.push(sb);
        assert forall|i: int, j: int| 0 <= i < t.len() && 0 <= j < t.len() && i != j implies t[i].name
            != t[j].name by {
            let n = base.blobs.len();
            if i < n && j < n {
                assert(t[i] == base.blobs[i] && t[j] == base.blobs[j]);
            } else if i < n {
                assert(t[i] == base.blobs[i]);
            } else {
                assert(t[j] == base.blobs[j]);
            }
        }
    }
}

/// Taking out a document's record together with its blob keeps a consistent
/// state consistent.
proof fn lemma_without_doc_consistent(st: AttachmentState, d: Seq<char>)
    requires
        records_unique(st.records),
        blob_names_unique(st.blobs),
        consistent(st),
    ensures
        consistent(without_doc(st, d)),
{
    if has_doc(st.records, d) {
        let k = doc_index(st.records, d);
        let name = st.records[k].storage_name;
        lemma_records_remove(st.records, k);
        lemma_without_blob(st.blobs, name);
        let after = without_doc(st, d);
        assert forall|a: int| 0 <= a < after.records.len() implies has_blob(
            after.blobs,
            #[trigger] after.records[a].storage_name,
        ) by {
            let i = if a < k { a } else { a + 1 };
            assert(after.records[a] == st.records[i]);
            assert(has_blob(st.blobs, st.records[i].storage_name));
        }
        assert forall|j: int| 0 <= j < after.blobs.len() implies names_blob(
            after.records,
            #[trigger] after.blobs[j].name,
        ) by {
            let bn = after.blobs[j].name;
            assert(bn != name);
            assert(has_blob(after.blobs, bn));
            assert(has_blob(st.blobs, bn));
            let j0 = choose|j0: int| 0 <= j0 < st.blobs.len() && st.blobs[j0].name == bn;
            assert(names_blob(st.records, st.blobs[j0].name));
            let i = choose|i: int| 0 <= i < st.records.len() && st.records[i].storage_name == bn;
            assert(i != k);
            let a = if i < k { i } else { i - 1 };
            assert(after.records[a] == st.records[i]);
        }
    }
}

proof fn lemma_upload_keeps_consistent(
    before: AttachmentState,
    d: Seq<char>,
    fresh: Binding,
    bytes: Seq<u8>,
)
    requires
        records_unique(before.records),
        blob_names_unique(before.blobs),
        fresh.document_id == d,
    ensures
        consistent(before) ==> consistent(
            AttachmentState {
                records: without_doc(before, d).records.push(fresh),
                blobs: without_doc(before, d).blobs.push(StoredBlob { name: fresh.storage_name, bytes }),
            },
        ),
{
    if consistent(before) {
        lemma_without_doc_consistent(before, d);
        let base = without_doc(before, d);
        let after = AttachmentState {
            records: base.records.push(fresh),
            blobs: base.blobs.push(StoredBlob { name: fresh.storage_name, bytes }),
        };
        let n = base.records.len() as int;
        let m = base.blobs.len() as int;
        assert forall|a: int| 0 <= a < after.records.len() implies has_blob(
            after.blobs,
            #[trigger] after.records[a].storage_name,
        ) by {
            if a < n {
                assert(after.records[a] == base.records[a]);
                assert(has_blob(base.blobs, base.records[a].storage_name));
                let j = choose|j: int| 0 <= j < base.blobs.len() && base.blobs[j].name == base.records[a].storage_name;
                assert(after.blobs[j] == base.blobs[j]);
            } else {
                assert(after.blobs[m].name == fresh.storage_name);
            }
        }
        assert forall|j: int| 0 <= j < after.blobs.len() implies names_blob(
            after.records,
            #[trigger] after.blobs[j].name,
        ) by {
            if j < m {
                assert(after.blobs[j] == base.blobs[j]);
                assert(names_blob(base.records, base.blobs[j].name));
                let i = choose|i: int| 0 <= i < base.records.len() && base.records[i].storage_name == base.blobs[j].name;
                assert(after.records[i] == base.records[i]);
            } else {
                assert(after.records[n].storage_name == fresh.storage_name);
            }
        }
    }
}

proof fn lemma_delete_keeps_consistent(before: AttachmentState, d: Seq<char>)
    requires
        records_unique(before.records),
        blob_names_unique(before.blobs),
    ensures
        consistent(before) ==> consistent(without_doc(before, d)),
{
    if consistent(before) {
        lemma_without_doc_consistent(before, d);
    }
}

} // verus!
