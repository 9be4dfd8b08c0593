use docvault::attachments::{AttachmentRecord, AttachmentStore, Blob, DEFAULT_SIZE_LIMIT};
use docvault::auth::{ApiKey, ApiKeyManager, CORS};
use docvault::documents::{document_matches, matches_folded, DocumentInput, DocumentStore};
use docvault::error::RepoError;
use docvault::object_id::DocId;
use docvault::text::contains_text;

fn input(title: &str, content: &str, tags: &[&str]) -> DocumentInput {
    DocumentInput {
        title: title.to_string(),
        content: content.to_string(),
        tags: tags.iter().map(|t| t.to_string()).collect(),
        summary: None,
        rating: None,
    }
}

#[test]
fn create_search_delete_scenario() {
    let mut store = DocumentStore::new();
    let id = store.create(input("A", "hello world", &["x"])).unwrap();
    let hex = id.to_hex();
    let found = store.search("HELLO");
    assert_eq!(found.len(), 1);
    assert_eq!(found[0].id, id);
    assert_eq!(found[0].content, "hello world");
    assert!(store.search("zzz").is_empty());
    assert_eq!(store.delete(&hex), Ok(()));
    assert_eq!(store.get_by_id(&hex).unwrap_err(), RepoError::NotFound);
}

#[test]
fn upload_fetch_delete_scenario() {
    let mut store = AttachmentStore::new(DEFAULT_SIZE_LIMIT);
    let payload = b"%PDF-".to_vec();
    let msg = store.upload("D1", payload.clone()).unwrap();
    assert_eq!(msg, "Uploaded PDF for document ID D1");
    assert_eq!(store.fetch("D1").unwrap(), payload);
    assert_eq!(store.delete("D1"), Ok(()));
    assert_eq!(store.delete("D1"), Err(RepoError::NotFound));
    assert_eq!(store.fetch("D1"), Err(RepoError::NotFound));
}

#[test]
fn create_then_get_returns_input() {
    let mut store = DocumentStore::new();
    let doc = DocumentInput {
        title: "Report".to_string(),
        content: "body".to_string(),
        tags: vec!["b".to_string(), "a".to_string(), "b".to_string()],
        summary: Some("short".to_string()),
        rating: Some(-3),
    };
    let id = store.create(doc).unwrap();
    let got = store.get_by_id(&id.to_hex()).unwrap();
    assert_eq!(got.id, id);
    assert_eq!(got.title, "Report");
    assert_eq!(got.content, "body");
    assert_eq!(got.tags, vec!["b", "a", "b"]);
    assert_eq!(got.summary, Some("short".to_string()));
    assert_eq!(got.rating, Some(-3));
}

#[test]
fn upper_case_id_text_finds_document() {
    let mut store = DocumentStore::new();
    let id = store.create(input("T", "c", &[])).unwrap();
    let upper = id.to_hex().to_uppercase();
    assert_eq!(store.get_by_id(&upper).unwrap().id, id);
}

#[test]
fn created_ids_differ() {
    let mut store = DocumentStore::new();
    let a = store.create(input("a", "", &[])).unwrap();
    let b = store.create(input("b", "", &[])).unwrap();
    assert_ne!(a, b);
    assert_eq!(store.len(), 2);
    let all = store.list();
    assert_eq!(all[0].title, "a");
    assert_eq!(all[1].title, "b");
}

#[test]
fn insert_with_taken_id_is_refused() {
    let mut store = DocumentStore::new();
    let id = DocId { bytes: [7; 12] };
    assert_eq!(store.insert_with_id(id, input("a", "", &[])), Ok(id));
    assert_eq!(store.insert_with_id(id, input("b", "", &[])), Err(RepoError::StoreError));
    assert_eq!(store.len(), 1);
    assert_eq!(store.get_by_id("070707070707070707070707").unwrap().title, "a");
}

#[test]
fn id_hex_form() {
    let id = DocId { bytes: [0, 1, 2, 3, 4, 5, 6, 7, 8, 9, 0xab, 0xff] };
    assert_eq!(id.to_hex(), "00010203040506070809abff");
    assert_eq!(DocId::parse("00010203040506070809ABff"), Some(id));
}

#[test]
fn malformed_ids_are_rejected() {
    assert_eq!(DocId::parse(""), None);
    assert_eq!(DocId::parse("00010203040506070809abf"), None);
    assert_eq!(DocId::parse("00010203040506070809abfff"), None);
    assert_eq!(DocId::parse("00010203040506070809abfg"), None);
    assert_eq!(DocId::parse("../../etc/passwd"), None);
}

#[test]
fn search_matches_tags_in_any_case() {
    let mut store = DocumentStore::new();
    store.create(input("one", "alpha", &["Finance", "q3"])).unwrap();
    store.create(input("two", "beta", &["misc"])).unwrap();
    let r = store.search("fInAnCe");
    assert_eq!(r.len(), 1);
    assert_eq!(r[0].title, "one");
    let r = store.search("NAN");
    assert_eq!(r.len(), 1);
    assert!(store.search("gamma").is_empty());
}

#[test]
fn search_returns_each_document_once() {
    let mut store = DocumentStore::new();
    store.create(input("apple", "apple pie", &["apple"])).unwrap();
    assert_eq!(store.search("APPLE").len(), 1);
}

#[test]
fn empty_term_matches_everything() {
    let mut store = DocumentStore::new();
    store.create(input("", "", &[])).unwrap();
    store.create(input("x", "y", &["z"])).unwrap();
    assert_eq!(store.search("").len(), 2);
}

#[test]
fn matching_helpers() {
    assert!(contains_text("hello world", "lo w"));
    assert!(contains_text("abc", ""));
    assert!(!contains_text("abc", "abcd"));
    assert!(!contains_text("Hello", "hello"));
    let tags = vec!["red".to_string(), "blue".to_string()];
    assert!(matches_folded("lu", "t", "c", &tags));
    assert!(!matches_folded("green", "t", "c", &tags));
    let mut store = DocumentStore::new();
    let id = store.create(input("Title", "Body", &["TAG"])).unwrap();
    let doc = store.get_by_id(&id.to_hex()).unwrap();
    assert!(document_matches(&doc, "tag"));
    assert!(document_matches(&doc, "TITLE"));
    assert!(!document_matches(&doc, "none"));
}

#[test]
fn update_replaces_fields_and_keeps_id() {
    let mut store = DocumentStore::new();
    let id = store.create(input("old", "old", &["o"])).unwrap();
    let hex = id.to_hex();
    let mut new = input("new", "text", &["n1", "n2"]);
    new.rating = Some(5);
    assert_eq!(store.update(&hex, new), Ok(()));
    let got = store.get_by_id(&hex).unwrap();
    assert_eq!(got.id, id);
    assert_eq!(got.title, "new");
    assert_eq!(got.tags, vec!["n1", "n2"]);
    assert_eq!(got.rating, Some(5));
}

#[test]
fn update_errors_leave_store_unchanged() {
    let mut store = DocumentStore::new();
    let id = store.create(input("keep", "me", &[])).unwrap();
    assert_eq!(store.update("not-an-id", input("x", "", &[])), Err(RepoError::BadRequest));
    assert_eq!(
        store.update("ffffffffffffffffffffffff", input("x", "", &[])),
        Err(RepoError::NotFound)
    );
    assert_eq!(store.get_by_id(&id.to_hex()).unwrap().title, "keep");
    assert_eq!(store.len(), 1);
}

#[test]
fn get_distinguishes_bad_request_from_not_found() {
    let store = DocumentStore::new();
    assert_eq!(store.get_by_id("xyz").unwrap_err(), RepoError::BadRequest);
    assert_eq!(store.get_by_id("000000000000000000000000").unwrap_err(), RepoError::NotFound);
}

#[test]
fn delete_twice() {
    let mut store = DocumentStore::new();
    let id = store.create(input("a", "b", &[])).unwrap();
    let other = store.create(input("c", "d", &[])).unwrap();
    let hex = id.to_hex();
    assert_eq!(store.delete(&hex), Ok(()));
    assert_eq!(store.delete(&hex), Err(RepoError::NotFound));
    assert_eq!(store.delete("bad"), Err(RepoError::BadRequest));
    assert_eq!(store.get_by_id(&other.to_hex()).unwrap().title, "c");
}

#[test]
fn upload_over_limit_is_refused() {
    let mut store = AttachmentStore::new(4);
    assert_eq!(store.upload("D1", vec![1, 2, 3, 4, 5]), Err(RepoError::TooLarge));
    assert_eq!(store.fetch("D1"), Err(RepoError::NotFound));
    assert!(store.upload("D1", vec![1, 2, 3, 4]).is_ok());
    assert_eq!(store.upload("D1", vec![9, 9, 9, 9, 9]), Err(RepoError::TooLarge));
    assert_eq!(store.fetch("D1").unwrap(), vec![1, 2, 3, 4]);
}

#[test]
fn reupload_replaces_attachment() {
    let mut store = AttachmentStore::new(DEFAULT_SIZE_LIMIT);
    store.upload("D1", vec![1]).unwrap();
    store.upload("D2", vec![2]).unwrap();
    store.upload("D1", vec![3, 3]).unwrap();
    assert_eq!(store.fetch("D1").unwrap(), vec![3, 3]);
    assert_eq!(store.fetch("D2").unwrap(), vec![2]);
    assert_eq!(store.delete("D1"), Ok(()));
    assert_eq!(store.delete("D1"), Err(RepoError::NotFound));
    assert_eq!(store.fetch("D2").unwrap(), vec![2]);
}

#[test]
fn empty_upload_round_trips() {
    let mut store = AttachmentStore::new(0);
    assert!(store.upload("D", Vec::new()).is_ok());
    assert_eq!(store.fetch("D").unwrap(), Vec::<u8>::new());
    assert_eq!(store.size_limit(), 0);
    assert_eq!(DEFAULT_SIZE_LIMIT, 10_485_760);
}

#[test]
fn api_keys_from_file_text() {
    let gate = ApiKeyManager::from_key_file("  alpha \r\nbeta\n\n");
    assert!(gate.is_valid_api_key("alpha"));
    assert!(gate.is_valid_api_key("beta"));
    assert!(!gate.is_valid_api_key(" alpha "));
    assert!(!gate.is_valid_api_key("alph"));
    assert!(!gate.is_valid_api_key(""));
}

#[test]
fn api_key_gate() {
    let gate = ApiKeyManager::new(vec!["k1".to_string(), "".to_string()]);
    assert!(gate.is_valid_api_key("k1"));
    assert!(!gate.is_valid_api_key("K1"));
    assert!(!gate.is_valid_api_key(""));
    assert_eq!(ApiKey::from_header(&gate, Some("k1")).unwrap().0, "k1");
    assert!(ApiKey::from_header(&gate, Some("k2")).is_none());
    assert!(ApiKey::from_header(&gate, Some("")).is_none());
    assert!(ApiKey::from_header(&gate, None).is_none());
}

#[test]
fn api_key_lines_are_trimmed() {
    let gate = ApiKeyManager::from_lines(vec!["\tkey\t".to_string()]);
    assert!(gate.is_valid_api_key("key"));
}

#[test]
fn cors_headers() {
    let h = CORS.headers();
    assert_eq!(h.len(), 3);
    assert_eq!(h[0], ("Access-Control-Allow-Origin".to_string(), "*".to_string()));
    assert_eq!(h[1].1, "GET, POST, PUT, DELETE, OPTIONS");
    assert_eq!(h[2].1, "Content-Type, x-api-key");
}

const KEY_A: &str = "123e4567-e89b-12d3-a456-426614174000";
const KEY_B: &str = "00000000-0000-4000-8000-000000000001";

fn record(doc: &str, key: &str) -> AttachmentRecord {
    AttachmentRecord {
        id: key.to_string(),
        document_id: doc.to_string(),
        storage_name: format!("{}.pdf", key),
        uploaded_at: 0,
    }
}

#[test]
fn upload_with_key_stores_under_key_name() {
    let mut store = AttachmentStore::new(DEFAULT_SIZE_LIMIT);
    let msg = store.upload_with_key("D1", KEY_A.to_string(), vec![1, 2], 42).unwrap();
    assert_eq!(msg, "Uploaded PDF for document ID D1");
    assert_eq!(store.fetch("D1").unwrap(), vec![1, 2]);
    assert_eq!(
        store.upload_with_key("D2", KEY_A.to_string(), vec![3], 43),
        Err(RepoError::IoError)
    );
    assert_eq!(store.fetch("D2"), Err(RepoError::NotFound));
    assert_eq!(
        store.upload_with_key("D1", KEY_A.to_string(), vec![9], 44),
        Err(RepoError::IoError)
    );
    assert_eq!(store.fetch("D1").unwrap(), vec![1, 2]);
    assert!(store.upload_with_key("D1", KEY_B.to_string(), vec![5], 45).is_ok());
    assert_eq!(store.fetch("D1").unwrap(), vec![5]);
}

#[test]
fn upload_with_key_over_limit() {
    let mut store = AttachmentStore::new(1);
    assert_eq!(
        store.upload_with_key("D1", KEY_A.to_string(), vec![1, 2], 0),
        Err(RepoError::TooLarge)
    );
    assert_eq!(store.fetch("D1"), Err(RepoError::NotFound));
}

#[test]
fn missing_blob_is_reported_and_record_kept() {
    let mut store =
        AttachmentStore::restore(vec![record("D1", KEY_A)], Vec::new(), DEFAULT_SIZE_LIMIT).unwrap();
    assert_eq!(store.fetch("D1"), Err(RepoError::NotFound));
    assert_eq!(store.delete("D1"), Err(RepoError::IoError));
    assert_eq!(store.delete("D1"), Err(RepoError::IoError));
    assert_eq!(store.delete("D2"), Err(RepoError::NotFound));
    assert!(store.upload("D1", vec![7]).is_ok());
    assert_eq!(store.fetch("D1").unwrap(), vec![7]);
    assert_eq!(store.delete("D1"), Ok(()));
    assert_eq!(store.delete("D1"), Err(RepoError::NotFound));
}

#[test]
fn restored_store_serves_blobs() {
    let blob = Blob { name: format!("{}.pdf", KEY_A), bytes: vec![4, 5] };
    let orphan = Blob { name: format!("{}.pdf", KEY_B), bytes: vec![6] };
    let mut store =
        AttachmentStore::restore(vec![record("D1", KEY_A)], vec![blob, orphan], 10).unwrap();
    assert_eq!(store.fetch("D1").unwrap(), vec![4, 5]);
    assert_eq!(
        store.upload_with_key("D3", KEY_B.to_string(), vec![1], 0),
        Err(RepoError::IoError)
    );
    assert_eq!(store.delete("D1"), Ok(()));
    assert_eq!(store.fetch("D1"), Err(RepoError::NotFound));
}

#[test]
fn restore_refuses_duplicates() {
    let dup_doc = AttachmentStore::restore(vec![record("D1", KEY_A), record("D1", KEY_B)], Vec::new(), 10);
    assert_eq!(dup_doc.err(), Some(RepoError::StoreError));
    let dup_name = AttachmentStore::restore(vec![record("D1", KEY_A), record("D2", KEY_A)], Vec::new(), 10);
    assert_eq!(dup_name.err(), Some(RepoError::StoreError));
    let a = Blob { name: "x.pdf".to_string(), bytes: vec![] };
    let b = Blob { name: "x.pdf".to_string(), bytes: vec![1] };
    let dup_blob = AttachmentStore::restore(Vec::new(), vec![a, b], 10);
    assert_eq!(dup_blob.err(), Some(RepoError::StoreError));
}
