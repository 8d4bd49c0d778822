//! Behavior of the link store and its snapshot round trip, exercised
//! through the public interface with concrete values.

use onion_links::store::{LinkStore, ValidationError};

fn bytes(s: &str) -> Vec<u8> {
    s.as_bytes().to_vec()
}

#[test]
fn add_forum_entry_then_round_trip() {
    let mut store = LinkStore::new();
    assert_eq!(store.len(), 0);
    let r = store.add(bytes("Forum"), bytes("http://exampleonion.onion"));
    assert!(r.is_ok());
    assert_eq!(store.len(), 1);
    assert_eq!(store.get(&bytes("Forum")), Some(&bytes("http://exampleonion.onion")));

    let snapshot = store.snapshot();
    let reloaded = LinkStore::load(Some(&snapshot));
    assert_eq!(reloaded.len(), 1);
    assert_eq!(reloaded.get(&bytes("Forum")), Some(&bytes("http://exampleonion.onion")));
}

#[test]
fn round_trip_preserves_every_entry() {
    let mut store = LinkStore::new();
    assert!(store.add(bytes("plain"), bytes("http://a.onion")).is_ok());
    assert!(store.add(bytes("with \"quotes\""), bytes("http://b.onion/?q=\"x\"")).is_ok());
    assert!(store.add(bytes("back\\slash"), bytes("c:\\path")).is_ok());
    assert!(store.add(bytes("line\nbreak\ttab"), bytes("url\rwith\u{8}controls")).is_ok());
    assert!(store.add(bytes("unicode \u{00e9}\u{4e2d}"), bytes("http://\u{00fc}.onion")).is_ok());
    let mut odd_title = vec![1u8, 2, 3, 31];
    odd_title.push(b'x');
    assert!(store.add(odd_title.clone(), bytes("u")).is_ok());

    let snapshot = store.snapshot();
    let reloaded = LinkStore::load(Some(&snapshot));
    assert_eq!(reloaded.len(), 6);
    assert_eq!(reloaded.get(&bytes("plain")), Some(&bytes("http://a.onion")));
    assert_eq!(reloaded.get(&bytes("with \"quotes\"")), Some(&bytes("http://b.onion/?q=\"x\"")));
    assert_eq!(reloaded.get(&bytes("back\\slash")), Some(&bytes("c:\\path")));
    assert_eq!(
        reloaded.get(&bytes("line\nbreak\ttab")),
        Some(&bytes("url\rwith\u{8}controls"))
    );
    assert_eq!(
        reloaded.get(&bytes("unicode \u{00e9}\u{4e2d}")),
        Some(&bytes("http://\u{00fc}.onion"))
    );
    assert_eq!(reloaded.get(&odd_title), Some(&bytes("u")));
}

#[test]
fn save_twice_is_byte_identical() {
    let mut store = LinkStore::new();
    assert!(store.add(bytes("one"), bytes("http://one.onion")).is_ok());
    assert!(store.add(bytes("two"), bytes("http://two.onion")).is_ok());
    let first = store.snapshot();
    let second = store.snapshot();
    assert_eq!(first, second);
}

#[test]
fn snapshot_has_exact_canonical_bytes() {
    let mut store = LinkStore::new();
    assert!(store.add(bytes("a"), bytes("b")).is_ok());
    let snapshot = store.snapshot();
    assert_eq!(snapshot, bytes("{\"a\":{\"title\":\"a\",\"url\":\"b\"}}"));
}

#[test]
fn delete_absent_leaves_store_unchanged() {
    let mut store = LinkStore::new();
    assert!(store.add(bytes("keep"), bytes("http://keep.onion")).is_ok());
    let removed = store.delete(&bytes("missing"));
    assert!(!removed);
    assert_eq!(store.len(), 1);
    assert_eq!(store.get(&bytes("keep")), Some(&bytes("http://keep.onion")));
}

#[test]
fn delete_present_removes_entry() {
    let mut store = LinkStore::new();
    assert!(store.add(bytes("gone"), bytes("http://gone.onion")).is_ok());
    let removed = store.delete(&bytes("gone"));
    assert!(removed);
    assert_eq!(store.len(), 0);
    assert_eq!(store.get(&bytes("gone")), None);
}

#[test]
fn rename_edit_moves_key_and_keeps_size() {
    let mut store = LinkStore::new();
    assert!(store.add(bytes("A"), bytes("http://a.onion")).is_ok());
    assert!(store.add(bytes("C"), bytes("http://c.onion")).is_ok());

    let session = store.begin_edit(&bytes("A")).expect("entry A is present");
    assert_eq!(session.title, bytes("A"));
    assert_eq!(session.url, bytes("http://a.onion"));
    assert!(store.commit_edit(session, bytes("B"), bytes("http://b.onion")).is_ok());

    assert_eq!(store.len(), 2);
    assert_eq!(store.get(&bytes("A")), None);
    assert_eq!(store.get(&bytes("B")), Some(&bytes("http://b.onion")));
    assert_eq!(store.get(&bytes("C")), Some(&bytes("http://c.onion")));
}

#[test]
fn rename_edit_onto_taken_title_overwrites() {
    let mut store = LinkStore::new();
    assert!(store.add(bytes("B"), bytes("http://b.onion")).is_ok());
    assert!(store.add(bytes("C"), bytes("http://c.onion")).is_ok());

    let session = store.begin_edit(&bytes("B")).expect("entry B is present");
    assert!(store.commit_edit(session, bytes("C"), bytes("http://new-c.onion")).is_ok());

    assert_eq!(store.len(), 1);
    assert_eq!(store.get(&bytes("B")), None);
    assert_eq!(store.get(&bytes("C")), Some(&bytes("http://new-c.onion")));
}

#[test]
fn edit_commit_keeping_title_updates_url() {
    let mut store = LinkStore::new();
    assert!(store.add(bytes("same"), bytes("http://old.onion")).is_ok());
    let session = store.begin_edit(&bytes("same")).expect("entry is present");
    assert!(store.commit_edit(session, bytes("same"), bytes("http://new.onion")).is_ok());
    assert_eq!(store.len(), 1);
    assert_eq!(store.get(&bytes("same")), Some(&bytes("http://new.onion")));
}

#[test]
fn add_empty_title_is_rejected() {
    let mut store = LinkStore::new();
    let r = store.add(bytes(""), bytes("http://x"));
    assert_eq!(r, Err(ValidationError::EmptyField));
    assert_eq!(store.len(), 0);
}

#[test]
fn add_empty_url_is_rejected() {
    let mut store = LinkStore::new();
    let r = store.add(bytes("title"), bytes(""));
    assert_eq!(r, Err(ValidationError::EmptyField));
    assert_eq!(store.len(), 0);
}

#[test]
fn edit_commit_empty_field_is_rejected() {
    let mut store = LinkStore::new();
    assert!(store.add(bytes("A"), bytes("http://a.onion")).is_ok());
    let session = store.begin_edit(&bytes("A")).expect("entry A is present");
    let r = store.commit_edit(session, bytes(""), bytes("http://b.onion"));
    assert_eq!(r, Err(ValidationError::EmptyField));
    assert_eq!(store.len(), 1);
    assert_eq!(store.get(&bytes("A")), Some(&bytes("http://a.onion")));
}

#[test]
fn begin_edit_of_missing_title_is_none() {
    let store = LinkStore::new();
    assert!(store.begin_edit(&bytes("nothing")).is_none());
}

#[test]
fn load_missing_file_gives_empty_store() {
    let store = LinkStore::load(None);
    assert_eq!(store.len(), 0);
}

#[test]
fn load_malformed_bytes_gives_empty_store() {
    for bad in [
        "",
        "garbage",
        "{",
        "[]",
        "{\"a\":{\"title\":\"a\",\"url\":\"b\"}",
        "{\"a\":{\"title\":\"a\",\"url\":\"b\"}}trailing",
        "{\"a\":{\"title\":\"a\"}}",
        "{\"a\":{\"url\":\"b\"}}",
        "{\"\":{\"title\":\"\",\"url\":\"b\"}}",
        "{\"a\":{\"title\":\"a\",\"url\":\"\"}}",
    ] {
        let store = LinkStore::load(Some(&bytes(bad)));
        assert_eq!(store.len(), 0, "input {:?} must load as empty", bad);
    }
}

#[test]
fn load_rejects_mismatched_inner_title() {
    let store = LinkStore::load(Some(&bytes("{\"a\":{\"title\":\"x\",\"url\":\"b\"}}")));
    assert_eq!(store.len(), 0);
}

#[test]
fn load_rejects_duplicate_titles() {
    let store = LinkStore::load(Some(&bytes(
        "{\"a\":{\"title\":\"a\",\"url\":\"b\"},\"a\":{\"title\":\"a\",\"url\":\"c\"}}",
    )));
    assert_eq!(store.len(), 0);
}

#[test]
fn load_reads_handwritten_snapshot() {
    let store = LinkStore::load(Some(&bytes(
        "{\"wiki\":{\"title\":\"wiki\",\"url\":\"http://wiki.onion\"},\
         \"mail\":{\"title\":\"mail\",\"url\":\"http://mail.onion\"}}",
    )));
    assert_eq!(store.len(), 2);
    assert_eq!(store.get(&bytes("wiki")), Some(&bytes("http://wiki.onion")));
    assert_eq!(store.get(&bytes("mail")), Some(&bytes("http://mail.onion")));
}

#[test]
fn load_decodes_string_escapes() {
    let store = LinkStore::load(Some(&bytes(
        "{\"q\\\"t\":{\"title\":\"q\\\"t\",\"url\":\"a\\\\b\\n\\u0001c\\/d\"}}",
    )));
    assert_eq!(store.len(), 1);
    let mut expected = bytes("a\\b\n");
    expected.push(1u8);
    expected.extend_from_slice(b"c/d");
    assert_eq!(store.get(&bytes("q\"t")), Some(&expected));
}

#[test]
fn add_overwrites_existing_title() {
    let mut store = LinkStore::new();
    assert!(store.add(bytes("dup"), bytes("http://old.onion")).is_ok());
    assert!(store.add(bytes("dup"), bytes("http://new.onion")).is_ok());
    assert_eq!(store.len(), 1);
    assert_eq!(store.get(&bytes("dup")), Some(&bytes("http://new.onion")));
}
