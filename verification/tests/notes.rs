use ghostnote::errors::VaultError;
use ghostnote::keys::{Dek, Kek};
use ghostnote::session::VaultSession;
use ghostnote::store::{
    create_note_on, delete_note, enc_path, is_encrypted, key_path, list_notes, read_note,
    save_note, search_notes, write_encrypted_note, NoteFiles,
};

fn unlocked() -> VaultSession {
    let mut session = VaultSession::new();
    session.unlock(Kek::from_bytes(vec![77u8; 32]));
    session
}

#[test]
fn artifact_paths() {
    assert_eq!(enc_path("inbox/note"), "inbox/note.enc");
    assert_eq!(key_path("inbox/note"), "inbox/note.key");
    assert_eq!(enc_path("inbox/note.md"), "inbox/note.enc");
    assert_eq!(key_path("a.b/c"), "a.b/c.key");
    assert_eq!(enc_path("dir/.hidden"), "dir/.hidden.enc");
}

#[test]
fn create_read_save_delete_note() {
    let session = unlocked();
    let mut files = NoteFiles::new();
    let path = create_note_on(
        &mut files,
        &session,
        "inbox",
        Some("Shopping List"),
        2026,
        10,
        11,
        1000,
    )
    .expect("create");
    assert_eq!(path, "inbox/2026-10-11-shopping-list");
    assert!(is_encrypted(&files, &path));

    let note = read_note(&files, &path, &session).expect("read");
    assert_eq!(note.path, path);
    assert_eq!(note.content, "# Shopping List\n\n");

    save_note(&mut files, &path, "# Shopping List\n\n- milk\n", &session, 2000).expect("save");
    let note = read_note(&files, &path, &session).expect("read");
    assert_eq!(note.content, "# Shopping List\n\n- milk\n");

    delete_note(&mut files, &path).expect("delete");
    assert_eq!(
        read_note(&files, &path, &session).unwrap_err(),
        VaultError::IoFailure
    );
    let listing = list_notes(&files, "inbox", &session);
    assert!(listing.is_empty());
}

#[test]
fn create_note_avoids_duplicates() {
    let session = unlocked();
    let mut files = NoteFiles::new();
    let first =
        create_note_on(&mut files, &session, "inbox", Some("Plan"), 2026, 1, 2, 10).expect("a");
    let second =
        create_note_on(&mut files, &session, "inbox", Some("Plan"), 2026, 1, 2, 20).expect("b");
    assert_eq!(first, "inbox/2026-01-02-plan");
    assert_eq!(second, "inbox/2026-01-02-plan-1");
    let untitled =
        create_note_on(&mut files, &session, "", None, 2026, 1, 2, 30).expect("untitled");
    assert_eq!(untitled, "2026-01-02-untitled");
    assert_eq!(read_note(&files, &untitled, &session).unwrap().content, "# Untitled\n\n");
}

#[test]
fn write_reuses_supplied_content_key() {
    let session = unlocked();
    let mut files = NoteFiles::new();
    let dek = Dek::generate();
    let dek_copy = Dek::from_bytes(dek.as_bytes().to_vec());
    write_encrypted_note(&mut files, "a/n", "one", &session, Some(dek), 1).expect("write");
    let key_blob_one = files.read_file("a/n.key").expect("key artifact");
    write_encrypted_note(&mut files, "a/n", "two", &session, Some(dek_copy), 2).expect("write");
    assert_eq!(read_note(&files, "a/n", &session).unwrap().content, "two");
    // the same content key is wrapped again, so unwrapping either blob
    // under the session key yields the same DEK; the blobs differ only by
    // their fresh nonces
    assert_eq!(key_blob_one.len(), files.read_file("a/n.key").unwrap().len());
}

#[test]
fn legacy_note_read_and_delete() {
    let session = unlocked();
    let mut files = NoteFiles::new();
    files.put("inbox/old.md", b"# Old note\n\nlegacy body\n".to_vec(), 50);
    assert!(!is_encrypted(&files, "inbox/old.md"));
    let note = read_note(&files, "inbox/old.md", &session).expect("read");
    assert_eq!(note.content, "# Old note\n\nlegacy body\n");
    delete_note(&mut files, "inbox/old.md").expect("delete");
    assert_eq!(
        read_note(&files, "inbox/old.md", &session).unwrap_err(),
        VaultError::IoFailure
    );
}

#[test]
fn listing_merges_legacy_and_encrypted_sorted() {
    let session = unlocked();
    let mut files = NoteFiles::new();
    files.put("inbox/old.md", b"# Old\n\nfrom before\n".to_vec(), 100);
    save_note(&mut files, "inbox/new", "# New\n\nfresh text here\n", &session, 200)
        .expect("save");
    let listing = list_notes(&files, "inbox", &session);
    assert_eq!(listing.len(), 2);
    assert_eq!(listing[0].title, "New");
    assert_eq!(listing[0].id, "inbox/new");
    assert_eq!(listing[0].modified_secs, 200);
    assert_eq!(listing[1].title, "Old");
    assert_eq!(listing[1].id, "inbox/old.md");
    assert_eq!(listing[1].modified_secs, 100);
    assert_eq!(listing[0].preview, "fresh text here");
    assert_eq!(listing[0].word_count, 5);
}

#[test]
fn listing_is_per_folder_and_skips_locked_notes() {
    let session = unlocked();
    let mut files = NoteFiles::new();
    save_note(&mut files, "inbox/a", "# A\n", &session, 1).expect("save");
    save_note(&mut files, "other/b", "# B\n", &session, 2).expect("save");
    files.put("inbox/plain.txt", b"just text\n".to_vec(), 3);
    let inbox = list_notes(&files, "inbox", &session);
    assert_eq!(inbox.len(), 2);
    assert_eq!(inbox[0].id, "inbox/plain.txt");
    assert_eq!(inbox[1].id, "inbox/a");
    // a locked session cannot decrypt, so only the legacy note remains
    let locked = VaultSession::new();
    let inbox_locked = list_notes(&files, "inbox", &locked);
    assert_eq!(inbox_locked.len(), 1);
    assert_eq!(inbox_locked[0].id, "inbox/plain.txt");
}

#[test]
fn listing_ties_keep_enumeration_order() {
    let session = unlocked();
    let mut files = NoteFiles::new();
    save_note(&mut files, "f/first", "# First\n", &session, 9).expect("save");
    save_note(&mut files, "f/second", "# Second\n", &session, 9).expect("save");
    let listing = list_notes(&files, "f", &session);
    assert_eq!(listing.len(), 2);
    assert_eq!(listing[0].id, "f/first");
    assert_eq!(listing[1].id, "f/second");
}

#[test]
fn search_finds_single_line() {
    let session = unlocked();
    let mut files = NoteFiles::new();
    save_note(
        &mut files,
        "inbox/groceries",
        "# Groceries\n\n- Milk and eggs  \n- bread\n",
        &session,
        1,
    )
    .expect("save");
    save_note(&mut files, "inbox/other", "# Other\n\nnothing here\n", &session, 2)
        .expect("save");
    let results = search_notes(&files, "MILK", &session);
    assert_eq!(results.len(), 1);
    assert_eq!(results[0].path, "inbox/groceries");
    assert_eq!(results[0].title, "Groceries");
    assert_eq!(results[0].matches.len(), 1);
    assert_eq!(results[0].matches[0].line_number, 3);
    assert_eq!(results[0].matches[0].line_content, "- Milk and eggs");
}

#[test]
fn legacy_note_upgraded_on_save() {
    let session = unlocked();
    let mut files = NoteFiles::new();
    files.put("inbox/old.md", b"# Old\n\nplain body\n".to_vec(), 100);
    save_note(&mut files, "inbox/old.md", "# Old\n\nnow secret\n", &session, 200)
        .expect("save");
    // the plaintext file is superseded: only the encrypted pair remains
    assert!(files.read_file("inbox/old.md").is_none());
    assert!(files.read_file("inbox/old.enc").is_some());
    assert!(files.read_file("inbox/old.key").is_some());
    let listing = list_notes(&files, "inbox", &session);
    assert_eq!(listing.len(), 1);
    assert_eq!(listing[0].id, "inbox/old");
    assert_eq!(
        read_note(&files, "inbox/old", &session).unwrap().content,
        "# Old\n\nnow secret\n"
    );
}

#[test]
fn search_is_unicode_case_insensitive() {
    let session = unlocked();
    let mut files = NoteFiles::new();
    save_note(&mut files, "inbox/menu", "# Menu\n\nCAFÉ au lait\n", &session, 1)
        .expect("save");
    let results = search_notes(&files, "café", &session);
    assert_eq!(results.len(), 1);
    assert_eq!(results[0].matches[0].line_content, "CAFÉ au lait");
}

#[test]
fn search_absent_query_returns_nothing() {
    let session = unlocked();
    let mut files = NoteFiles::new();
    save_note(&mut files, "inbox/a", "# A\n\nsome words\n", &session, 1).expect("save");
    files.put("inbox/b.txt", b"legacy text\n".to_vec(), 2);
    let results = search_notes(&files, "zebra", &session);
    assert!(results.is_empty());
}

#[test]
fn search_covers_legacy_and_subfolders() {
    let session = unlocked();
    let mut files = NoteFiles::new();
    files.put("deep/nested/old.md", b"alpha beta\ngamma\n".to_vec(), 1);
    save_note(&mut files, "top", "beta again\n", &session, 2).expect("save");
    let results = search_notes(&files, "beta", &session);
    assert_eq!(results.len(), 2);
    assert_eq!(results[0].path, "deep/nested/old.md");
    assert_eq!(results[0].matches[0].line_number, 1);
    assert_eq!(results[1].path, "top");
}

#[test]
fn locked_session_cannot_read_or_write() {
    let session = unlocked();
    let locked = VaultSession::new();
    let mut files = NoteFiles::new();
    save_note(&mut files, "inbox/a", "# A\n", &session, 1).expect("save");
    assert_eq!(
        read_note(&files, "inbox/a", &locked).unwrap_err(),
        VaultError::VaultLocked
    );
    assert_eq!(
        save_note(&mut files, "inbox/b", "text", &locked, 2).unwrap_err(),
        VaultError::VaultLocked
    );
}

#[test]
fn wrong_session_key_fails_authentication() {
    let session = unlocked();
    let mut files = NoteFiles::new();
    save_note(&mut files, "inbox/a", "# A\n", &session, 1).expect("save");
    let mut other = VaultSession::new();
    other.unlock(Kek::from_bytes(vec![78u8; 32]));
    assert_eq!(
        read_note(&files, "inbox/a", &other).unwrap_err(),
        VaultError::AuthenticationFailed
    );
}

#[test]
fn artifact_pair_is_stored() {
    let session = unlocked();
    let mut files = NoteFiles::new();
    save_note(&mut files, "inbox/pair", "text", &session, 7).expect("save");
    assert!(files.read_file("inbox/pair.enc").is_some());
    assert!(files.read_file("inbox/pair.key").is_some());
    assert!(files.read_file("inbox/pair").is_none());
}

#[test]
fn non_text_payload_reads_as_invalid_encoding() {
    let session = unlocked();
    let mut files = NoteFiles::new();
    // store a well-formed artifact pair whose payload is not valid UTF-8
    let dek = Dek::generate();
    let blob = ghostnote::aead::encrypt(dek.as_bytes(), &[0xFFu8, 0xFEu8, 0x00u8])
        .expect("encrypt");
    let wrapped = ghostnote::keys::wrap_dek(session.kek().unwrap(), &dek).expect("wrap");
    files.put("inbox/binary.enc", blob, 1);
    files.put("inbox/binary.key", wrapped, 1);
    assert_eq!(
        read_note(&files, "inbox/binary", &session).unwrap_err(),
        VaultError::InvalidEncoding
    );
}

#[test]
fn create_note_with_todays_date() {
    let session = unlocked();
    let mut files = NoteFiles::new();
    let path = ghostnote::store::create_note(&mut files, &session, "inbox", None, 5)
        .expect("create");
    assert!(path.starts_with("inbox/"));
    assert!(path.ends_with("-untitled"));
    // the name carries a zero-padded year-month-day prefix
    let name = &path["inbox/".len()..path.len() - "-untitled".len()];
    let parts: Vec<&str> = name.split('-').collect();
    assert_eq!(parts.len(), 3);
    assert_eq!(parts[0].len(), 4);
    assert_eq!(parts[1].len(), 2);
    assert_eq!(parts[2].len(), 2);
    assert!(parts.iter().all(|p| p.chars().all(|c| c.is_ascii_digit())));
    assert_eq!(read_note(&files, &path, &session).unwrap().content, "# Untitled\n\n");
}
