//! The note file store: a logical relative path maps to either an encrypted
//! artifact pair (ciphertext file and wrapped-key file) or one legacy
//! plaintext file. Create, read, write, delete, list and search work against
//! an in-memory image of the note tree; the surrounding application loads
//! and persists that image.

use vstd::prelude::*;

use crate::aead::{decrypt, decrypt_spec, encrypt, KEY_LEN, MAX_PLAINTEXT_LEN};
use crate::dates::{dec_digits, to_decimal, format_date, format_ymd, local_today_call, month_day_string, ymd_string};
use crate::errors::VaultError;
use crate::keys::{unwrap_dek, unwrap_spec, wrap_dek, Dek, Kek};
use crate::session::{VaultConfig, VaultSession};
use crate::text::{
    chars_of, contains_chars, contains_sub, count_words, extract_preview, extract_title,
    lines_of, lower_of, lowercase_str, preview_of, slug_of, slugify, split_lines,
    string_from_chars, sub_chars, title_of, trim_chars, trimmed, views_of, word_count_of,
};
use vstd::utf8::{decode_utf8, encode_utf8, valid_utf8};

verus! {

/// Index of the last occurrence of `c` in `s`, or `-1`.
pub open spec fn last_index_of(s: Seq<char>, c: char) -> int
    decreases s.len(),
{
    if s.len() == 0 {
        -1
    } else if s.last() == c {
        s.len() - 1
    } else {
        last_index_of(s.drop_last(), c)
    }
}

proof fn lemma_last_index_at(s: Seq<char>, c: char, i: int)
    requires
        -1 <= i < s.len(),
        i >= 0 ==> s[i] == c,
        forall|j: int| i < j < s.len() ==> s[j] != c,
    ensures
        last_index_of(s, c) == i,
    decreases s.len(),
{
    if s.len() > 0 {
        if i == s.len() - 1 {
        } else {
            assert(s.last() != c);
            lemma_last_index_at(s.drop_last(), c, i);
        }
    }
}

/// Where the extension begins in `path`: the index of the last dot that
/// belongs to the file name (not its first character), or the path length
/// when the name has no extension.
pub open spec fn stem_end(path: Seq<char>) -> int {
    let slash = last_index_of(path, '/');
    let dot = last_index_of(path, '.');
    if dot > slash + 1 {
        dot
    } else {
        path.len() as int
    }
}

/// `path` with its extension replaced by `ext`.
pub open spec fn with_ext(path: Seq<char>, ext: Seq<char>) -> Seq<char> {
    path.take(stem_end(path)) + seq!['.'] + ext
}

/// The path of the ciphertext artifact for a logical path.
pub open spec fn enc_path_spec(path: Seq<char>) -> Seq<char> {
    with_ext(path, seq!['e', 'n', 'c'])
}

/// The path of the wrapped-key artifact for a logical path.
pub open spec fn key_path_spec(path: Seq<char>) -> Seq<char> {
    with_ext(path, seq!['k', 'e', 'y'])
}

/// The path without its extension: the logical path of an artifact.
pub open spec fn strip_ext(path: Seq<char>) -> Seq<char> {
    path.take(stem_end(path))
}

/// The file stem: the file name without directories and extension.
pub open spec fn stem_of(path: Seq<char>) -> Seq<char> {
    path.subrange(last_index_of(path, '/') + 1, stem_end(path))
}

/// The extension of `path`, without its dot.
pub open spec fn ext_of(path: Seq<char>) -> Seq<char> {
    if stem_end(path) == path.len() {
        Seq::empty()
    } else {
        path.skip(stem_end(path) + 1)
    }
}

/// Index of the last occurrence of `c`, if any.
fn rfind_char(v: &Vec<char>, c: char) -> (r: Option<usize>)
    ensures
        match r {
            Some(i) => i < v@.len() && i == last_index_of(v@, c),
            None => last_index_of(v@, c) == -1,
        },
{
    let mut i: usize = v.len();
    while i > 0
        invariant
            i <= v@.len(),
            forall|j: int| i <= j < v@.len() ==> v@[j] != c,
        decreases i,
    {
        i = i - 1;
        if v[i] == c {
            proof {
                lemma_last_index_at(v@, c, i as int);
            }
            return Some(i);
        }
    }
    proof {
        lemma_last_index_at(v@, c, -1);
    }
    None
}

/// Where the extension begins, as an index into `path`.
fn stem_end_exec(path: &Vec<char>) -> (r: usize)
    ensures
        r == stem_end(path@),
        r <= path@.len(),
{
    let slash = rfind_char(path, '/');
    let dot = rfind_char(path, '.');
    match dot {
        Some(d) => {
            let after = match slash {
                Some(sl) => sl < d && d - sl > 1,
                None => d > 0,
            };
            if after {
                d
            } else {
                path.len()
            }
        },
        None => path.len(),
    }
}

/// `path` with its extension replaced, as character vectors.
fn with_ext_chars(path: &Vec<char>, e0: char, e1: char, e2: char) -> (r: Vec<char>)
    ensures
        r@ == with_ext(path@, seq![e0, e1, e2]),
{
    let cut = stem_end_exec(path);
    let mut r = sub_chars(path, 0, cut);
    r.push('.');
    r.push(e0);
    r.push(e1);
    r.push(e2);
    proof {
        assert(r@ =~= with_ext(path@, seq![e0, e1, e2]));
    }
    r
}

/// The ciphertext artifact path (`.enc`) for a logical path.
pub fn enc_path(path: &str) -> (r: String)
    ensures
        r@ == enc_path_spec(path@),
{
    let chars = chars_of(path);
    let out = with_ext_chars(&chars, 'e', 'n', 'c');
    string_from_chars(&out)
}

/// The wrapped-key artifact path (`.key`) for a logical path.
pub fn key_path(path: &str) -> (r: String)
    ensures
        r@ == key_path_spec(path@),
{
    let chars = chars_of(path);
    let out = with_ext_chars(&chars, 'k', 'e', 'y');
    string_from_chars(&out)
}

/// The two artifact paths of one note differ.
pub proof fn lemma_artifact_paths_differ(path: Seq<char>)
    ensures
        enc_path_spec(path) != key_path_spec(path),
{
    let e = enc_path_spec(path);
    let k = key_path_spec(path);
    assert(e[e.len() - 3] == 'e');
    assert(k[k.len() - 3] == 'k');
}

/// String equality by view.
pub fn eq_str(a: &str, b: &str) -> (r: bool)
    ensures
        r == (a@ == b@),
{
    let ab = a.as_bytes();
    let bb = b.as_bytes();
    proof {
        broadcast use vstd::utf8::encode_utf8_decode_utf8;

    }
    if ab.len() != bb.len() {
        return false;
    }
    let mut i: usize = 0;
    while i < ab.len()
        invariant
            ab@.len() == bb@.len(),
            ab@ == encode_utf8(a@),
            bb@ == encode_utf8(b@),
            i <= ab@.len(),
            forall|j: int| 0 <= j < i ==> ab@[j] == bb@[j],
        decreases ab@.len() - i,
    {
        if ab[i] != bb[i] {
            return false;
        }
        i = i + 1;
    }
    proof {
        assert(ab@ =~= bb@);
        broadcast use vstd::utf8::encode_utf8_decode_utf8;

        assert(decode_utf8(encode_utf8(a@)) == a@);
        assert(decode_utf8(encode_utf8(b@)) == b@);
    }
    true
}

/// One stored file: its relative path, raw bytes, and modification time in
/// seconds since the epoch.
pub struct FileEntry {
    /// Relative path, `/`-separated.
    pub path: String,
    /// Raw file bytes.
    pub data: Vec<u8>,
    /// Modification time, in seconds since the epoch.
    pub modified: i64,
}

/// The mathematical image of one stored file.
pub ghost struct FileRec {
    /// Relative path.
    pub path: Seq<char>,
    /// Raw bytes.
    pub data: Seq<u8>,
    /// Modification time.
    pub modified: int,
}

impl View for FileEntry {
    type V = FileRec;

    open spec fn view(&self) -> FileRec {
        FileRec { path: self.path@, data: self.data@, modified: self.modified as int }
    }
}

/// The first stored file under `path`, if any.
pub open spec fn lookup(files: Seq<FileRec>, path: Seq<char>) -> Option<FileRec>
    decreases files.len(),
{
    if files.len() == 0 {
        None
    } else if files[0].path == path {
        Some(files[0])
    } else {
        lookup(files.drop_first(), path)
    }
}

proof fn lemma_lookup_at(files: Seq<FileRec>, path: Seq<char>, i: int)
    requires
        0 <= i < files.len(),
        files[i].path == path,
        forall|j: int| 0 <= j < i ==> files[j].path != path,
    ensures
        lookup(files, path) == Some(files[i]),
    decreases i,
{
    if i > 0 {
        lemma_lookup_at(files.drop_first(), path, i - 1);
    }
}

proof fn lemma_lookup_none_all(files: Seq<FileRec>, path: Seq<char>)
    requires
        lookup(files, path) is None,
    ensures
        forall|j: int| 0 <= j < files.len() ==> (#[trigger] files[j].path) != path,
    decreases files.len(),
{
    if files.len() > 0 {
        lemma_lookup_none_all(files.drop_first(), path);
        assert forall|j: int| 0 <= j < files.len() implies (#[trigger] files[j].path) != path by {
            if j > 0 {
                assert(files.drop_first()[j - 1].path != path);
            }
        }
    }
}

proof fn lemma_lookup_none(files: Seq<FileRec>, path: Seq<char>)
    requires
        forall|j: int| 0 <= j < files.len() ==> files[j].path != path,
    ensures
        lookup(files, path) is None,
    decreases files.len(),
{
    if files.len() > 0 {
        lemma_lookup_none(files.drop_first(), path);
    }
}

/// Index of the first stored file under `path`, or `-1`.
pub open spec fn index_of_path(files: Seq<FileRec>, path: Seq<char>) -> int
    decreases files.len(),
{
    if files.len() == 0 {
        -1
    } else if files[0].path == path {
        0
    } else if index_of_path(files.drop_first(), path) == -1 {
        -1
    } else {
        1 + index_of_path(files.drop_first(), path)
    }
}

proof fn lemma_index_of_path_at(files: Seq<FileRec>, path: Seq<char>, i: int)
    requires
        -1 <= i < files.len(),
        i >= 0 ==> files[i].path == path,
        forall|j: int| 0 <= j < (if i >= 0 { i } else { files.len() as int }) ==> files[j].path
            != path,
    ensures
        index_of_path(files, path) == i,
        i >= 0 ==> lookup(files, path) == Some(files[i]),
        i == -1 ==> lookup(files, path) is None,
    decreases files.len(),
{
    if i >= 0 {
        lemma_lookup_at(files, path, i);
    } else {
        lemma_lookup_none(files, path);
    }
    if files.len() > 0 && files[0].path != path {
        lemma_index_of_path_at(files.drop_first(), path, if i >= 1 { i - 1 } else { -1 });
    }
}

/// The store after `rec` is written: an existing file under the same path is
/// replaced in place, otherwise the file is appended.
pub open spec fn store_put(files: Seq<FileRec>, rec: FileRec) -> Seq<FileRec> {
    let i = index_of_path(files, rec.path);
    if i >= 0 {
        files.update(i, rec)
    } else {
        files.push(rec)
    }
}

/// The store after the file under `path` is removed; unchanged when there
/// is none.
pub open spec fn store_remove(files: Seq<FileRec>, path: Seq<char>) -> Seq<FileRec> {
    let i = index_of_path(files, path);
    if i >= 0 {
        files.remove(i)
    } else {
        files
    }
}

/// The in-memory image of the note tree: each entry one stored file, in
/// enumeration order, with no path stored twice.
pub struct NoteFiles {
    entries: Vec<FileEntry>,
}

impl View for NoteFiles {
    type V = Seq<FileRec>;

    closed spec fn view(&self) -> Seq<FileRec> {
        Seq::new(self.entries@.len(), |i: int| self.entries@[i]@)
    }
}

impl NoteFiles {
    /// No path is stored twice.
    pub open spec fn wf(&self) -> bool {
        forall|i: int, j: int|
            0 <= i < j < self@.len() ==> (#[trigger] self@[i].path) != (#[trigger] self@[j].path)
    }

    /// An empty store.
    pub fn new() -> (r: NoteFiles)
        ensures
            r.wf(),
            r@ == Seq::<FileRec>::empty(),
    {
        let r = NoteFiles { entries: Vec::new() };
        proof {
            assert(r@ =~= Seq::<FileRec>::empty());
        }
        r
    }

    /// Number of stored files.
    pub fn len(&self) -> (n: usize)
        ensures
            n == self@.len(),
    {
        self.entries.len()
    }

    /// The path of the stored file at `i`.
    pub fn path_at(&self, i: usize) -> (r: &str)
        requires
            i < self@.len(),
        ensures
            r@ == self@[i as int].path,
    {
        self.entries[i].path.as_str()
    }

    /// The bytes of the stored file at `i`.
    pub fn data_at(&self, i: usize) -> (r: &Vec<u8>)
        requires
            i < self@.len(),
        ensures
            r@ == self@[i as int].data,
    {
        &self.entries[i].data
    }

    /// The modification time of the stored file at `i`.
    pub fn modified_at(&self, i: usize) -> (r: i64)
        requires
            i < self@.len(),
        ensures
            r == self@[i as int].modified,
    {
        self.entries[i].modified
    }

    /// Index of the file stored under `path`.
    fn index_of(&self, path: &str) -> (r: Option<usize>)
        ensures
            match r {
                Some(i) => {
                    &&& i < self@.len()
                    &&& i == index_of_path(self@, path@)
                    &&& self@[i as int].path == path@
                    &&& lookup(self@, path@) == Some(self@[i as int])
                },
                None => {
                    &&& index_of_path(self@, path@) == -1
                    &&& lookup(self@, path@) is None
                },
            },
    {
        let mut i: usize = 0;
        while i < self.entries.len()
            invariant
                i <= self@.len(),
                self@.len() == self.entries@.len(),
                forall|j: int| 0 <= j < i ==> (#[trigger] self@[j].path) != path@,
            decreases self@.len() - i,
        {
            if eq_str(self.entries[i].path.as_str(), path) {
                proof {
                    lemma_index_of_path_at(self@, path@, i as int);
                }
                return Some(i);
            }
            i = i + 1;
        }
        proof {
            lemma_index_of_path_at(self@, path@, -1);
        }
        None
    }

    /// Whether a file is stored under `path`.
    pub fn contains(&self, path: &str) -> (r: bool)
        ensures
            r == (lookup(self@, path@) is Some),
    {
        self.index_of(path).is_some()
    }

    /// A copy of the bytes stored under `path`.
    pub fn read_file(&self, path: &str) -> (r: Option<Vec<u8>>)
        ensures
            match r {
                Some(d) => lookup(self@, path@) matches Some(rec) && rec.data == d@,
                None => lookup(self@, path@) is None,
            },
    {
        match self.index_of(path) {
            Some(i) => Some(clone_bytes(&self.entries[i].data)),
            None => None,
        }
    }

    /// The modification time of the file stored under `path`.
    pub fn modified_of(&self, path: &str) -> (r: Option<i64>)
        ensures
            match r {
                Some(m) => lookup(self@, path@) matches Some(rec) && rec.modified == m,
                None => lookup(self@, path@) is None,
            },
    {
        match self.index_of(path) {
            Some(i) => Some(self.entries[i].modified),
            None => None,
        }
    }

    /// Store `data` under `path`, replacing any file already there.
    pub fn put(&mut self, path: &str, data: Vec<u8>, modified: i64)
        requires
            old(self).wf(),
        ensures
            final(self).wf(),
            final(self)@ == store_put(
                old(self)@,
                FileRec { path: path@, data: data@, modified: modified as int },
            ),
    {
        let ghost rec = FileRec { path: path@, data: data@, modified: modified as int };
        match self.index_of(path) {
            Some(i) => {
                let entry = FileEntry { path: String::from_str(path), data, modified };
                self.entries.set(i, entry);
                proof {
                    assert(self@ =~= store_put(old(self)@, rec));
                    assert forall|a: int, b: int| 0 <= a < b < self@.len() implies (
                    #[trigger] self@[a].path) != (#[trigger] self@[b].path) by {
                        assert(self@[a].path == old(self)@[a].path);
                        assert(self@[b].path == old(self)@[b].path);
                        assert(old(self)@[a].path != old(self)@[b].path);
                    }
                }
            },
            None => {
                let entry = FileEntry { path: String::from_str(path), data, modified };
                self.entries.push(entry);
                proof {
                    assert(self@ =~= store_put(old(self)@, rec));
                    lemma_lookup_none_all(old(self)@, path@);
                    assert(self@ == old(self)@.push(rec));
                    assert forall|a: int, b: int| 0 <= a < b < self@.len() implies (
                    #[trigger] self@[a].path) != (#[trigger] self@[b].path) by {
                        assert(self@[a] == old(self)@[a]);
                        if b < self@.len() - 1 {
                            assert(self@[b] == old(self)@[b]);
                            assert(old(self)@[a].path != old(self)@[b].path);
                        } else {
                            assert(self@[b] == rec);
                            assert(old(self)@[a].path != path@);
                        }
                    }
                }
            },
        }
    }

    /// Remove the file under `path`; absence is not an error.
    pub fn remove(&mut self, path: &str)
        requires
            old(self).wf(),
        ensures
            final(self).wf(),
            final(self)@ == store_remove(old(self)@, path@),
    {
        match self.index_of(path) {
            Some(i) => {
                self.entries.remove(i);
                proof {
                    assert(self@ =~= store_remove(old(self)@, path@));
                    assert forall|a: int, b: int| 0 <= a < b < self@.len() implies (
                    #[trigger] self@[a].path) != (#[trigger] self@[b].path) by {
                        let ai: int = if a < i { a } else { a + 1 };
                        let bi: int = if b < i { b } else { b + 1 };
                        assert(old(self)@[ai].path != old(self)@[bi].path);
                    }
                }
            },
            None => {},
        }
    }
}

/// A copy of a byte vector.
fn clone_bytes(v: &Vec<u8>) -> (r: Vec<u8>)
    ensures
        r@ == v@,
{
    let mut r: Vec<u8> = Vec::new();
    let mut i: usize = 0;
    while i < v.len()
        invariant
            i <= v@.len(),
            r@ == v@.take(i as int),
        decreases v@.len() - i,
    {
        r.push(v[i]);
        i = i + 1;
        proof {
            assert(r@ =~= v@.take(i as int));
        }
    }
    proof {
        assert(v@.take(v@.len() as int) =~= v@);
    }
    r
}

/// Whether the vault is initialized: its salt artifact is stored.
pub fn is_vault_initialized(config: &VaultConfig, files: &NoteFiles) -> (r: bool)
    ensures
        r == (lookup(files@, config.salt_path@) is Some),
{
    files.contains(config.salt_path.as_str())
}

/// Relies on `String::from_utf8`: succeeds exactly on valid UTF-8 input,
/// returning its decoding.
#[verifier::external_body]
fn string_from_utf8(bytes: Vec<u8>) -> (r: Option<String>)
    ensures
        r is Some <==> valid_utf8(bytes@),
        r matches Some(s) ==> s@ == decode_utf8(bytes@),
{
    String::from_utf8(bytes).ok()
}

/// Whether a note is stored encrypted: its ciphertext artifact is present.
pub open spec fn is_encrypted_spec(files: Seq<FileRec>, path: Seq<char>) -> bool {
    lookup(files, enc_path_spec(path)) is Some
}

/// Whether a note is stored encrypted.
pub fn is_encrypted(files: &NoteFiles, path: &str) -> (r: bool)
    ensures
        r == is_encrypted_spec(files@, path@),
{
    let ep = enc_path(path);
    files.contains(ep.as_str())
}

/// Decrypting a blob and decoding the plaintext as text.
pub open spec fn decrypted_text(key: Seq<u8>, blob: Seq<u8>) -> Result<Seq<char>, VaultError> {
    match decrypt_spec(key, blob) {
        Ok(pt) => if valid_utf8(pt) {
            Ok(decode_utf8(pt))
        } else {
            Err(VaultError::InvalidEncoding)
        },
        Err(e) => Err(e),
    }
}

/// What reading an encrypted note returns: load the wrapped key, unwrap it
/// under the session key, load the ciphertext, decrypt, decode as text.
pub open spec fn note_read_spec(
    files: Seq<FileRec>,
    path: Seq<char>,
    key: Option<Seq<u8>>,
) -> Result<Seq<char>, VaultError> {
    match lookup(files, key_path_spec(path)) {
        None => Err(VaultError::IoFailure),
        Some(krec) => match key {
            None => Err(VaultError::VaultLocked),
            Some(kek) => match unwrap_spec(kek, krec.data) {
                Err(e) => Err(e),
                Ok(dek) => match lookup(files, enc_path_spec(path)) {
                    None => Err(VaultError::IoFailure),
                    Some(erec) => decrypted_text(dek, erec.data),
                },
            },
        },
    }
}

/// Read and decrypt an encrypted note's content.
pub fn read_encrypted_note(files: &NoteFiles, path: &str, vault: &VaultSession) -> (r: Result<
    String,
    VaultError,
>)
    requires
        vault.wf(),
    ensures
        r matches Ok(s) ==> note_read_spec(files@, path@, vault.key_view()) == Ok::<
            Seq<char>,
            VaultError,
        >(s@),
        r matches Err(e) ==> note_read_spec(files@, path@, vault.key_view()) == Err::<
            Seq<char>,
            VaultError,
        >(e),
{
    let kp = key_path(path);
    let wrapped = match files.read_file(kp.as_str()) {
        Some(d) => d,
        None => {
            return Err(VaultError::IoFailure);
        },
    };
    let kek = match vault.kek() {
        Ok(k) => k,
        Err(e) => {
            return Err(e);
        },
    };
    let dek = match unwrap_dek(kek, wrapped.as_slice()) {
        Ok(d) => d,
        Err(e) => {
            return Err(e);
        },
    };
    let ep = enc_path(path);
    let blob = match files.read_file(ep.as_str()) {
        Some(d) => d,
        None => {
            return Err(VaultError::IoFailure);
        },
    };
    let plaintext = match decrypt(dek.as_bytes(), blob.as_slice()) {
        Ok(p) => p,
        Err(e) => {
            return Err(e);
        },
    };
    match string_from_utf8(plaintext) {
        Some(s) => Ok(s),
        None => Err(VaultError::InvalidEncoding),
    }
}

/// That `new_files` is `old_files` with the note at `path` written: any
/// legacy plaintext file at the path is superseded, the ciphertext artifact
/// decrypts to the content under `dek`, and the key artifact unwraps to
/// `dek` under `kek`; both artifacts carry `modified`.
pub open spec fn written_note(
    old_files: Seq<FileRec>,
    new_files: Seq<FileRec>,
    path: Seq<char>,
    content: Seq<char>,
    kek: Seq<u8>,
    dek: Seq<u8>,
    modified: int,
) -> bool {
    exists|encb: Seq<u8>, keyb: Seq<u8>|
        {
            &&& dek.len() == KEY_LEN
            &&& #[trigger] unwrap_spec(kek, keyb) == Ok::<Seq<u8>, VaultError>(dek)
            &&& #[trigger] decrypt_spec(dek, encb) == Ok::<Seq<u8>, VaultError>(
                encode_utf8(content),
            )
            &&& new_files == store_put(
                store_put(
                    store_remove(old_files, path),
                    FileRec { path: enc_path_spec(path), data: encb, modified },
                ),
                FileRec { path: key_path_spec(path), data: keyb, modified },
            )
        }
}

/// Encrypt a note's content and store the artifact pair: encrypt under the
/// note's DEK (the supplied one, or a fresh one), wrap the DEK under the
/// session KEK, then write ciphertext and wrapped key. A legacy plaintext
/// file stored at the path is removed, so exactly one form of the note
/// remains.
pub fn write_encrypted_note(
    files: &mut NoteFiles,
    path: &str,
    content: &str,
    vault: &VaultSession,
    existing_dek: Option<Dek>,
    modified: i64,
) -> (r: Result<(), VaultError>)
    requires
        old(files).wf(),
        vault.wf(),
        existing_dek matches Some(d) ==> d.wf(),
    ensures
        final(files).wf(),
        r is Ok ==> vault.is_unlocked(),
        existing_dek matches Some(d) ==> (r is Ok ==> written_note(
            old(files)@,
            final(files)@,
            path@,
            content@,
            vault.key_view()->0,
            d@,
            modified as int,
        )),
        (r is Ok && existing_dek is None) ==> exists|dek: Seq<u8>|
            written_note(
                old(files)@,
                final(files)@,
                path@,
                content@,
                vault.key_view()->0,
                dek,
                modified as int,
            ),
        (vault.is_unlocked() && encode_utf8(content@).len() <= MAX_PLAINTEXT_LEN) ==> r is Ok,
        r matches Err(e) ==> {
            &&& final(files)@ == old(files)@
            &&& (e == VaultError::VaultLocked || e == VaultError::EncryptionFailed)
            &&& (e == VaultError::VaultLocked <==> !vault.is_unlocked())
        },
{
    let kek = match vault.kek() {
        Ok(k) => k,
        Err(e) => {
            return Err(e);
        },
    };
    let dek = match existing_dek {
        Some(d) => d,
        None => Dek::generate(),
    };
    let encrypted_content = match encrypt(dek.as_bytes(), content.as_bytes()) {
        Ok(c) => c,
        Err(e) => {
            return Err(e);
        },
    };
    let wrapped_dek = match wrap_dek(kek, &dek) {
        Ok(w) => w,
        Err(e) => {
            return Err(e);
        },
    };
    let ep = enc_path(path);
    let kp = key_path(path);
    let ghost encb = encrypted_content@;
    let ghost keyb = wrapped_dek@;
    files.remove(path);
    files.put(ep.as_str(), encrypted_content, modified);
    files.put(kp.as_str(), wrapped_dek, modified);
    proof {
        assert(written_note(
            old(files)@,
            files@,
            path@,
            content@,
            vault.key_view()->0,
            dek@,
            modified as int,
        ));
    }
    Ok(())
}

/// Remove both encrypted artifacts of a note; either being already absent
/// is not an error.
pub fn delete_encrypted_note(files: &mut NoteFiles, path: &str) -> (r: Result<(), VaultError>)
    requires
        old(files).wf(),
    ensures
        final(files).wf(),
        final(files)@ == store_remove(
            store_remove(old(files)@, enc_path_spec(path@)),
            key_path_spec(path@),
        ),
        r is Ok,
{
    let ep = enc_path(path);
    let kp = key_path(path);
    files.remove(ep.as_str());
    files.remove(kp.as_str());
    Ok(())
}

proof fn lemma_index_path_props(files: Seq<FileRec>, p: Seq<char>)
    ensures
        -1 <= index_of_path(files, p) < files.len(),
        index_of_path(files, p) >= 0 ==> files[index_of_path(files, p)].path == p,
        index_of_path(files, p) >= 0 ==> (forall|j: int|
            0 <= j < index_of_path(files, p) ==> files[j].path != p),
        index_of_path(files, p) == -1 ==> (forall|j: int|
            0 <= j < files.len() ==> files[j].path != p),
    decreases files.len(),
{
    if files.len() > 0 && files[0].path != p {
        let rest = files.drop_first();
        lemma_index_path_props(rest, p);
        if index_of_path(rest, p) >= 0 {
            assert forall|j: int| 0 <= j < index_of_path(files, p) implies files[j].path != p by {
                if j > 0 {
                    assert(rest[j - 1].path != p);
                }
            }
        } else {
            assert forall|j: int| 0 <= j < files.len() implies files[j].path != p by {
                if j > 0 {
                    assert(rest[j - 1].path != p);
                }
            }
        }
    }
}

proof fn lemma_lookup_update_other(files: Seq<FileRec>, i: int, rec: FileRec, p: Seq<char>)
    requires
        0 <= i < files.len(),
        files[i].path != p,
        rec.path != p,
    ensures
        lookup(files.update(i, rec), p) == lookup(files, p),
    decreases files.len(),
{
    let upd = files.update(i, rec);
    if i == 0 {
        assert(upd.drop_first() =~= files.drop_first());
    } else {
        assert(upd[0] == files[0]);
        if files[0].path != p {
            assert(upd.drop_first() =~= files.drop_first().update(i - 1, rec));
            lemma_lookup_update_other(files.drop_first(), i - 1, rec, p);
        }
    }
}

proof fn lemma_lookup_push_other(files: Seq<FileRec>, rec: FileRec, p: Seq<char>)
    requires
        rec.path != p,
    ensures
        lookup(files.push(rec), p) == lookup(files, p),
    decreases files.len(),
{
    let pushed = files.push(rec);
    if files.len() == 0 {
        assert(pushed[0] == rec);
        assert(pushed.drop_first() =~= Seq::<FileRec>::empty());
    } else {
        assert(pushed[0] == files[0]);
        if files[0].path != p {
            assert(pushed.drop_first() =~= files.drop_first().push(rec));
            lemma_lookup_push_other(files.drop_first(), rec, p);
        }
    }
}

/// Looking a path up after a write finds the written file; every other
/// path is unaffected.
pub proof fn lemma_lookup_put(files: Seq<FileRec>, rec: FileRec, p: Seq<char>)
    ensures
        p == rec.path ==> lookup(store_put(files, rec), p) == Some(rec),
        p != rec.path ==> lookup(store_put(files, rec), p) == lookup(files, p),
{
    let i = index_of_path(files, rec.path);
    lemma_index_path_props(files, rec.path);
    if i >= 0 {
        if p == rec.path {
            lemma_lookup_at(files.update(i, rec), p, i);
        } else {
            lemma_lookup_update_other(files, i, rec, p);
        }
    } else {
        if p == rec.path {
            lemma_lookup_at(files.push(rec), p, files.len() as int);
        } else {
            lemma_lookup_push_other(files, rec, p);
        }
    }
}

/// A note just written reads back as exactly the written content under the
/// same session key.
pub proof fn lemma_saved_note_reads_back(
    old_files: Seq<FileRec>,
    new_files: Seq<FileRec>,
    path: Seq<char>,
    content: Seq<char>,
    kek: Seq<u8>,
    dek: Seq<u8>,
    modified: int,
)
    requires
        written_note(old_files, new_files, path, content, kek, dek, modified),
    ensures
        is_encrypted_spec(new_files, path),
        note_read_spec(new_files, path, Some(kek)) == Ok::<Seq<char>, VaultError>(content),
{
    broadcast use vstd::utf8::encode_utf8_valid_utf8, vstd::utf8::encode_utf8_decode_utf8;

    let (encb, keyb) = choose|encb: Seq<u8>, keyb: Seq<u8>|
        {
            &&& dek.len() == KEY_LEN
            &&& #[trigger] unwrap_spec(kek, keyb) == Ok::<Seq<u8>, VaultError>(dek)
            &&& #[trigger] decrypt_spec(dek, encb) == Ok::<Seq<u8>, VaultError>(
                encode_utf8(content),
            )
            &&& new_files == store_put(
                store_put(
                    store_remove(old_files, path),
                    FileRec { path: enc_path_spec(path), data: encb, modified },
                ),
                FileRec { path: key_path_spec(path), data: keyb, modified },
            )
        };
    let erec = FileRec { path: enc_path_spec(path), data: encb, modified };
    let krec = FileRec { path: key_path_spec(path), data: keyb, modified };
    let base = store_remove(old_files, path);
    let mid = store_put(base, erec);
    lemma_artifact_paths_differ(path);
    lemma_lookup_put(mid, krec, key_path_spec(path));
    lemma_lookup_put(mid, krec, enc_path_spec(path));
    lemma_lookup_put(base, erec, enc_path_spec(path));
}

/// What `read_note` returns: the decrypted artifact pair when the note is
/// stored encrypted, the legacy plaintext file decoded as text otherwise.
pub open spec fn read_note_spec(
    files: Seq<FileRec>,
    path: Seq<char>,
    key: Option<Seq<u8>>,
) -> Result<Seq<char>, VaultError> {
    if is_encrypted_spec(files, path) {
        note_read_spec(files, path, key)
    } else {
        match lookup(files, path) {
            None => Err(VaultError::IoFailure),
            Some(rec) => if valid_utf8(rec.data) {
                Ok(decode_utf8(rec.data))
            } else {
                Err(VaultError::InvalidEncoding)
            },
        }
    }
}

/// A note's path and text content.
#[derive(Debug)]
pub struct NoteContent {
    /// The logical relative path it was read from.
    pub path: String,
    /// The note text.
    pub content: String,
}

/// Read a note: from its encrypted artifact pair when present, else from
/// its legacy plaintext file.
pub fn read_note(files: &NoteFiles, path: &str, vault: &VaultSession) -> (r: Result<
    NoteContent,
    VaultError,
>)
    requires
        vault.wf(),
    ensures
        r matches Ok(nc) ==> nc.path@ == path@ && read_note_spec(files@, path@, vault.key_view())
            == Ok::<Seq<char>, VaultError>(nc.content@),
        r matches Err(e) ==> read_note_spec(files@, path@, vault.key_view()) == Err::<
            Seq<char>,
            VaultError,
        >(e),
{
    if is_encrypted(files, path) {
        match read_encrypted_note(files, path, vault) {
            Ok(content) => Ok(NoteContent { path: String::from_str(path), content }),
            Err(e) => Err(e),
        }
    } else {
        let data = match files.read_file(path) {
            Some(d) => d,
            None => {
                return Err(VaultError::IoFailure);
            },
        };
        match string_from_utf8(data) {
            Some(content) => Ok(NoteContent { path: String::from_str(path), content }),
            None => Err(VaultError::InvalidEncoding),
        }
    }
}

/// Save a note: always in encrypted form, under a fresh content key.
pub fn save_note(
    files: &mut NoteFiles,
    path: &str,
    content: &str,
    vault: &VaultSession,
    modified: i64,
) -> (r: Result<(), VaultError>)
    requires
        old(files).wf(),
        vault.wf(),
    ensures
        final(files).wf(),
        r is Ok ==> vault.is_unlocked() && exists|dek: Seq<u8>|
            written_note(
                old(files)@,
                final(files)@,
                path@,
                content@,
                vault.key_view()->0,
                dek,
                modified as int,
            ),
        r is Ok ==> read_note_spec(final(files)@, path@, vault.key_view()) == Ok::<
            Seq<char>,
            VaultError,
        >(content@),
        (vault.is_unlocked() && encode_utf8(content@).len() <= MAX_PLAINTEXT_LEN) ==> r is Ok,
        r matches Err(e) ==> final(files)@ == old(files)@ && (e == VaultError::VaultLocked <==> !vault.is_unlocked()),
{
    let r = write_encrypted_note(files, path, content, vault, None, modified);
    proof {
        if r is Ok {
            let dek = choose|dek: Seq<u8>|
                written_note(
                    old(files)@,
                    files@,
                    path@,
                    content@,
                    vault.key_view()->0,
                    dek,
                    modified as int,
                );
            lemma_saved_note_reads_back(
                old(files)@,
                files@,
                path@,
                content@,
                vault.key_view()->0,
                dek,
                modified as int,
            );
        }
    }
    r
}

/// What the store holds after `delete_note`: both encrypted artifacts gone,
/// or the legacy file gone; a missing note is an error.
pub open spec fn delete_note_spec(files: Seq<FileRec>, path: Seq<char>) -> Result<
    Seq<FileRec>,
    VaultError,
> {
    if is_encrypted_spec(files, path) {
        Ok(store_remove(store_remove(files, enc_path_spec(path)), key_path_spec(path)))
    } else if lookup(files, path) is Some {
        Ok(store_remove(files, path))
    } else {
        Err(VaultError::IoFailure)
    }
}

/// Delete a note: both encrypted artifacts when present, else the legacy
/// plaintext file.
pub fn delete_note(files: &mut NoteFiles, path: &str) -> (r: Result<(), VaultError>)
    requires
        old(files).wf(),
    ensures
        final(files).wf(),
        r is Ok ==> delete_note_spec(old(files)@, path@) == Ok::<Seq<FileRec>, VaultError>(
            final(files)@,
        ),
        r matches Err(e) ==> delete_note_spec(old(files)@, path@) == Err::<
            Seq<FileRec>,
            VaultError,
        >(e) && final(files)@ == old(files)@,
{
    if is_encrypted(files, path) {
        delete_encrypted_note(files, path)
    } else {
        if files.contains(path) {
            files.remove(path);
            Ok(())
        } else {
            Err(VaultError::IoFailure)
        }
    }
}

/// Whether `path` is a direct child of `folder` (the empty folder is the
/// note root).
pub open spec fn in_folder(path: Seq<char>, folder: Seq<char>) -> bool {
    if folder.len() == 0 {
        path.len() > 0 && last_index_of(path, '/') == -1
    } else {
        &&& path.len() > folder.len() + 1
        &&& path.take(folder.len() as int) == folder
        &&& path[folder.len() as int] == '/'
        &&& last_index_of(path, '/') == folder.len()
    }
}

fn in_folder_exec(path: &Vec<char>, folder: &Vec<char>) -> (r: bool)
    ensures
        r == in_folder(path@, folder@),
{
    if folder.len() == 0 {
        if path.len() == 0 {
            return false;
        }
        return rfind_char(path, '/').is_none();
    }
    if !(path.len() > folder.len() && path.len() - folder.len() > 1) {
        return false;
    }
    let mut i: usize = 0;
    while i < folder.len()
        invariant
            folder@.len() < path@.len(),
            i <= folder@.len(),
            forall|j: int| 0 <= j < i ==> path@[j] == folder@[j],
        decreases folder@.len() - i,
    {
        if path[i] != folder[i] {
            proof {
                assert(path@.take(folder@.len() as int)[i as int] != folder@[i as int]);
            }
            return false;
        }
        i = i + 1;
    }
    proof {
        assert(path@.take(folder@.len() as int) =~= folder@);
    }
    if path[folder.len()] != '/' {
        return false;
    }
    match rfind_char(path, '/') {
        Some(sl) => sl == folder.len(),
        None => false,
    }
}

/// Which artifact kind a stored path is: ciphertext, legacy markdown,
/// legacy text, or none of these.
pub open spec fn ext_kind_spec(path: Seq<char>) -> int {
    if ext_of(path) == seq!['e', 'n', 'c'] {
        1
    } else if ext_of(path) == seq!['m', 'd'] {
        2
    } else if ext_of(path) == seq!['t', 'x', 't'] {
        3
    } else {
        0
    }
}

fn ext_kind(path: &Vec<char>) -> (k: u8)
    ensures
        k == ext_kind_spec(path@),
{
    let cut = stem_end_exec(path);
    let ghost e = ext_of(path@);
    if cut == path.len() {
        proof {
            assert(e =~= Seq::<char>::empty());
        }
        return 0;
    }
    let elen = path.len() - cut - 1;
    proof {
        assert(e =~= path@.skip(cut + 1));
    }
    if elen == 3 && path[cut + 1] == 'e' && path[cut + 2] == 'n' && path[cut + 3] == 'c' {
        proof {
            assert(e =~= seq!['e', 'n', 'c']);
        }
        1
    } else if elen == 2 && path[cut + 1] == 'm' && path[cut + 2] == 'd' {
        proof {
            assert(e =~= seq!['m', 'd']);
        }
        2
    } else if elen == 3 && path[cut + 1] == 't' && path[cut + 2] == 'x' && path[cut + 3] == 't' {
        proof {
            assert(e =~= seq!['t', 'x', 't']);
        }
        3
    } else {
        proof {
            assert(e.len() == elen);
            if e == seq!['e', 'n', 'c'] {
                assert(elen == 3);
                assert(path@[cut + 1] == e[0]);
                assert(path@[cut + 2] == e[1]);
                assert(path@[cut + 3] == e[2]);
                assert(false);
            }
            if e == seq!['m', 'd'] {
                assert(elen == 2);
                assert(path@[cut + 1] == e[0]);
                assert(path@[cut + 2] == e[1]);
                assert(false);
            }
            if e == seq!['t', 'x', 't'] {
                assert(elen == 3);
                assert(path@[cut + 1] == e[0]);
                assert(path@[cut + 2] == e[1]);
                assert(path@[cut + 3] == e[2]);
                assert(false);
            }
        }
        0
    }
}

/// The mathematical image of one listed note.
pub ghost struct MetaRec {
    /// The logical relative path (also the id).
    pub id: Seq<char>,
    /// Display title.
    pub title: Seq<char>,
    /// Preview text.
    pub preview: Seq<char>,
    /// Whitespace-delimited token count.
    pub word_count: int,
    /// Modification time in seconds, the sort key.
    pub modified: int,
}

/// Metadata of one note in a listing.
#[derive(Debug)]
pub struct NoteMeta {
    /// The logical relative path.
    pub id: String,
    /// The logical relative path (same as `id`).
    pub path: String,
    /// Display title.
    pub title: String,
    /// Preview text.
    pub preview: String,
    /// Display form of the modification date.
    pub modified: String,
    /// Whitespace-delimited token count.
    pub word_count: usize,
    /// Modification time in seconds since the epoch.
    pub modified_secs: i64,
}

impl View for NoteMeta {
    type V = MetaRec;

    open spec fn view(&self) -> MetaRec {
        MetaRec {
            id: self.id@,
            title: self.title@,
            preview: self.preview@,
            word_count: self.word_count as int,
            modified: self.modified_secs as int,
        }
    }
}

/// The metadata derived from a note's content and timestamp.
pub open spec fn meta_rec_of(id: Seq<char>, stem: Seq<char>, content: Seq<char>, modified: int) -> MetaRec {
    MetaRec {
        id: id,
        title: title_of(content, stem),
        preview: preview_of(content),
        word_count: word_count_of(content) as int,
        modified: modified,
    }
}

/// The listing entry that one stored file contributes, if any: an encrypted
/// note that the session can decrypt, or a readable legacy note, in the
/// requested folder. Undecryptable or foreign files are omitted.
pub open spec fn entry_meta(
    files: Seq<FileRec>,
    rec: FileRec,
    folder: Seq<char>,
    key: Option<Seq<u8>>,
) -> Option<MetaRec> {
    if !in_folder(rec.path, folder) {
        None
    } else if ext_kind_spec(rec.path) == 1 {
        match note_read_spec(files, strip_ext(rec.path), key) {
            Ok(content) => Some(
                meta_rec_of(strip_ext(rec.path), stem_of(rec.path), content, rec.modified),
            ),
            Err(_) => None,
        }
    } else if ext_kind_spec(rec.path) == 2 || ext_kind_spec(rec.path) == 3 {
        if valid_utf8(rec.data) {
            Some(meta_rec_of(rec.path, stem_of(rec.path), decode_utf8(rec.data), rec.modified))
        } else {
            None
        }
    } else {
        None
    }
}

/// The unsorted listing of a folder, in store enumeration order, starting
/// at entry `i`.
pub open spec fn listing_from(
    files: Seq<FileRec>,
    folder: Seq<char>,
    key: Option<Seq<u8>>,
    i: int,
) -> Seq<MetaRec>
    decreases files.len() - i,
{
    if i < 0 || i >= files.len() {
        Seq::empty()
    } else {
        let rest = listing_from(files, folder, key, i + 1);
        match entry_meta(files, files[i], folder, key) {
            Some(m) => seq![m] + rest,
            None => rest,
        }
    }
}

/// `s` with `m` inserted after every entry at least as recent: descending
/// insertion that keeps the order of equal timestamps.
pub open spec fn insert_desc(s: Seq<MetaRec>, m: MetaRec) -> Seq<MetaRec>
    decreases s.len(),
{
    if s.len() == 0 {
        seq![m]
    } else if s[0].modified >= m.modified {
        seq![s[0]] + insert_desc(s.drop_first(), m)
    } else {
        seq![m] + s
    }
}

/// `s` sorted by modification time, newest first, ties kept in input order.
pub open spec fn sort_desc(s: Seq<MetaRec>) -> Seq<MetaRec>
    decreases s.len(),
{
    if s.len() == 0 {
        s
    } else {
        insert_desc(sort_desc(s.drop_last()), s.last())
    }
}

/// The views of a vector of note metadata.
pub open spec fn meta_views(s: Seq<NoteMeta>) -> Seq<MetaRec> {
    Seq::new(s.len(), |i: int| s[i]@)
}

/// Ordered newest-first.
pub open spec fn sorted_desc_metas(s: Seq<MetaRec>) -> bool {
    forall|i: int, j: int| 0 <= i <= j < s.len() ==> s[i].modified >= s[j].modified
}

proof fn lemma_insert_desc_props(s: Seq<MetaRec>, m: MetaRec)
    requires
        sorted_desc_metas(s),
    ensures
        sorted_desc_metas(insert_desc(s, m)),
        insert_desc(s, m).to_multiset() == s.to_multiset().insert(m),
        insert_desc(s, m).len() == s.len() + 1,
    decreases s.len(),
{
    broadcast use vstd::seq_lib::group_to_multiset_ensures;

    let out = insert_desc(s, m);
    if s.len() == 0 {
        assert(out =~= Seq::<MetaRec>::empty().push(m));
        assert(out.to_multiset() =~= s.to_multiset().insert(m));
    } else if s[0].modified >= m.modified {
        let dropped = s.drop_first();
        assert(sorted_desc_metas(dropped)) by {
            assert forall|i: int, j: int| 0 <= i <= j < dropped.len() implies dropped[i].modified
                >= dropped[j].modified by {
                assert(s[i + 1].modified >= s[j + 1].modified);
            }
        }
        lemma_insert_desc_props(dropped, m);
        let rest = insert_desc(dropped, m);
        assert(out =~= seq![s[0]] + rest);
        assert forall|i: int, j: int| 0 <= i <= j < out.len() implies out[i].modified
            >= out[j].modified by {
            if i == 0 && j > 0 {
                let x = rest[j - 1];
                assert(rest.contains(x));
                assert(rest.to_multiset().count(x) > 0);
                if x == m {
                    assert(out[i].modified >= out[j].modified);
                } else {
                    assert(dropped.to_multiset().count(x) > 0);
                    assert(dropped.contains(x));
                    let t = choose|t: int| 0 <= t < dropped.len() && dropped[t] == x;
                    assert(s[0].modified >= s[t + 1].modified);
                }
            } else if i > 0 {
                assert(rest[i - 1].modified >= rest[j - 1].modified);
            }
        }
        assert(s =~= seq![s[0]] + dropped);
        vstd::seq_lib::lemma_multiset_commutative(seq![s[0]], rest);
        vstd::seq_lib::lemma_multiset_commutative(seq![s[0]], dropped);
        assert(seq![s[0]].to_multiset().add(dropped.to_multiset().insert(m)) =~= seq![
            s[0],
        ].to_multiset().add(dropped.to_multiset()).insert(m));
    } else {
        assert(out =~= seq![m] + s);
        assert forall|i: int, j: int| 0 <= i <= j < out.len() implies out[i].modified
            >= out[j].modified by {
            if i == 0 && j > 0 {
                assert(s[0].modified >= s[j - 1].modified);
            } else if i > 0 {
                assert(s[i - 1].modified >= s[j - 1].modified);
            }
        }
        vstd::seq_lib::lemma_multiset_commutative(seq![m], s);
        assert(seq![m] =~= Seq::<MetaRec>::empty().push(m));
        assert(seq![m].to_multiset().add(s.to_multiset()) =~= s.to_multiset().insert(m));
    }
}

/// The listing order law: sorting by modification time yields a sequence
/// that is ordered newest first and holds exactly the notes it was given —
/// nothing duplicated, nothing omitted.
pub proof fn lemma_sort_desc_props(s: Seq<MetaRec>)
    ensures
        sorted_desc_metas(sort_desc(s)),
        sort_desc(s).to_multiset() == s.to_multiset(),
        sort_desc(s).len() == s.len(),
    decreases s.len(),
{
    broadcast use vstd::seq_lib::group_to_multiset_ensures;

    if s.len() > 0 {
        let dropped = s.drop_last();
        lemma_sort_desc_props(dropped);
        lemma_insert_desc_props(sort_desc(dropped), s.last());
        assert(s =~= dropped.push(s.last()));
        assert(dropped.push(s.last()).to_multiset() =~= dropped.to_multiset().insert(s.last()));
    }
}

proof fn lemma_insert_desc_at(s: Seq<MetaRec>, m: MetaRec, j: int)
    requires
        0 <= j <= s.len(),
        forall|t: int| 0 <= t < j ==> s[t].modified >= m.modified,
        j < s.len() ==> s[j].modified < m.modified,
    ensures
        insert_desc(s, m) == s.take(j) + seq![m] + s.skip(j),
    decreases j,
{
    if j == 0 {
        if s.len() == 0 {
            assert(insert_desc(s, m) =~= s.take(0) + seq![m] + s.skip(0));
        } else {
            assert(insert_desc(s, m) =~= s.take(0) + seq![m] + s.skip(0));
        }
    } else {
        lemma_insert_desc_at(s.drop_first(), m, j - 1);
        assert(s.drop_first().take(j - 1) =~= s.take(j).drop_first());
        assert(s.drop_first().skip(j - 1) =~= s.skip(j));
        assert(insert_desc(s, m) =~= s.take(j) + seq![m] + s.skip(j));
    }
}

proof fn lemma_last_index_props(s: Seq<char>, c: char)
    ensures
        -1 <= last_index_of(s, c) < s.len(),
        last_index_of(s, c) >= 0 ==> s[last_index_of(s, c)] == c,
    decreases s.len(),
{
    if s.len() > 0 && s.last() != c {
        lemma_last_index_props(s.drop_last(), c);
    }
}

/// A path with an extension is its stem, a dot, and the extension.
pub proof fn lemma_ext_recompose(q: Seq<char>)
    requires
        stem_end(q) < q.len(),
    ensures
        q == strip_ext(q) + seq!['.'] + ext_of(q),
{
    lemma_last_index_props(q, '.');
    lemma_last_index_props(q, '/');
    assert(0 <= stem_end(q));
    assert(q[stem_end(q)] == '.');
    assert(q =~= q.take(stem_end(q)) + seq![q[stem_end(q)]] + q.skip(stem_end(q) + 1));
}

proof fn lemma_store_remove_keeps_absent(files: Seq<FileRec>, x: Seq<char>, y: Seq<char>)
    requires
        forall|j: int| 0 <= j < files.len() ==> (#[trigger] files[j].path) != y,
    ensures
        forall|j: int|
            0 <= j < store_remove(files, x).len() ==> (#[trigger] store_remove(files, x)[j].path)
                != y,
{
    let i = index_of_path(files, x);
    lemma_index_path_props(files, x);
    if i >= 0 {
        assert(files.remove(i) =~= files.take(i) + files.skip(i + 1));
        assert forall|j: int| 0 <= j < store_remove(files, x).len() implies (
        #[trigger] store_remove(files, x)[j].path) != y by {
            if j < i {
                assert(store_remove(files, x)[j] == files[j]);
            } else {
                assert(store_remove(files, x)[j] == files[j + 1]);
            }
        }
    }
}

proof fn lemma_store_remove_makes_absent(files: Seq<FileRec>, x: Seq<char>)
    requires
        forall|a: int, b: int|
            0 <= a < b < files.len() ==> (#[trigger] files[a].path) != (#[trigger] files[b].path),
    ensures
        forall|j: int|
            0 <= j < store_remove(files, x).len() ==> (#[trigger] store_remove(files, x)[j].path)
                != x,
{
    let i = index_of_path(files, x);
    lemma_index_path_props(files, x);
    if i >= 0 {
        assert(files.remove(i) =~= files.take(i) + files.skip(i + 1));
        assert forall|j: int| 0 <= j < store_remove(files, x).len() implies (
        #[trigger] store_remove(files, x)[j].path) != x by {
            if j < i {
                assert(store_remove(files, x)[j] == files[j]);
                assert(files[j].path != files[i].path);
            } else {
                assert(store_remove(files, x)[j] == files[j + 1]);
                assert(files[i].path != files[j + 1].path);
            }
        }
    } else {
        assert forall|j: int| 0 <= j < store_remove(files, x).len() implies (
        #[trigger] store_remove(files, x)[j].path) != x by {
            assert(files[j].path != x);
        }
    }
}

proof fn lemma_listing_no_id(
    files: Seq<FileRec>,
    folder: Seq<char>,
    key: Option<Seq<u8>>,
    p: Seq<char>,
    i: int,
)
    requires
        stem_end(p) == p.len(),
        forall|j: int| 0 <= j < files.len() ==> (#[trigger] files[j].path) != enc_path_spec(p),
    ensures
        forall|t: int|
            0 <= t < listing_from(files, folder, key, i).len() ==> (#[trigger] listing_from(
                files,
                folder,
                key,
                i,
            )[t].id) != p,
    decreases files.len() - i,
{
    if 0 <= i < files.len() {
        lemma_listing_no_id(files, folder, key, p, i + 1);
        let rec = files[i];
        let listing = listing_from(files, folder, key, i);
        let rest = listing_from(files, folder, key, i + 1);
        match entry_meta(files, rec, folder, key) {
            Some(m) => {
                assert(m.id != p) by {
                    if m.id == p {
                        if ext_kind_spec(rec.path) == 1 {
                            assert(ext_of(rec.path) == seq!['e', 'n', 'c']);
                            lemma_last_index_props(rec.path, '.');
                            lemma_last_index_props(rec.path, '/');
                            if stem_end(rec.path) == rec.path.len() {
                                assert(ext_of(rec.path) =~= Seq::<char>::empty());
                                assert(seq!['e', 'n', 'c'].len() == 3);
                            }
                            assert(stem_end(rec.path) < rec.path.len());
                            lemma_ext_recompose(rec.path);
                            assert(p.take(stem_end(p)) =~= p);
                            assert(rec.path =~= enc_path_spec(p));
                        } else {
                            assert(ext_of(p) =~= Seq::<char>::empty());
                        }
                    }
                }
                assert forall|t: int| 0 <= t < listing.len() implies (#[trigger] listing[t].id)
                    != p by {
                    if t == 0 {
                        assert(listing[0] == m);
                    } else {
                        assert(listing[t] == rest[t - 1]);
                    }
                }
            },
            None => {},
        }
    }
}

proof fn lemma_sort_desc_no_id(s: Seq<MetaRec>, p: Seq<char>)
    requires
        forall|t: int| 0 <= t < s.len() ==> (#[trigger] s[t].id) != p,
    ensures
        forall|t: int|
            0 <= t < sort_desc(s).len() ==> (#[trigger] sort_desc(s)[t].id) != p,
{
    broadcast use vstd::seq_lib::group_to_multiset_ensures;

    lemma_sort_desc_props(s);
    assert forall|t: int| 0 <= t < sort_desc(s).len() implies (#[trigger] sort_desc(s)[t].id)
        != p by {
        let x = sort_desc(s)[t];
        assert(sort_desc(s).contains(x));
        assert(sort_desc(s).to_multiset().count(x) > 0);
        assert(s.to_multiset().count(x) > 0);
        assert(s.contains(x));
        let j = choose|j: int| 0 <= j < s.len() && s[j] == x;
        assert(s[j].id != p);
    }
}

/// A deleted note is gone from every listing: once `delete_note` succeeds
/// on an extensionless logical path, no folder's listing shows a note under
/// that path.
pub proof fn lemma_deleted_note_not_listed(
    files: Seq<FileRec>,
    new_files: Seq<FileRec>,
    p: Seq<char>,
    folder: Seq<char>,
    key: Option<Seq<u8>>,
)
    requires
        stem_end(p) == p.len(),
        forall|a: int, b: int|
            0 <= a < b < files.len() ==> (#[trigger] files[a].path) != (#[trigger] files[b].path),
        delete_note_spec(files, p) == Ok::<Seq<FileRec>, VaultError>(new_files),
    ensures
        forall|t: int|
            0 <= t < sort_desc(listing_from(new_files, folder, key, 0)).len() ==> (
            #[trigger] sort_desc(listing_from(new_files, folder, key, 0))[t].id) != p,
{
    if is_encrypted_spec(files, p) {
        let mid = store_remove(files, enc_path_spec(p));
        lemma_store_remove_makes_absent(files, enc_path_spec(p));
        lemma_store_remove_keeps_absent(mid, key_path_spec(p), enc_path_spec(p));
        assert(new_files == store_remove(mid, key_path_spec(p)));
    } else {
        lemma_lookup_none_all(files, enc_path_spec(p));
        lemma_store_remove_keeps_absent(files, p, enc_path_spec(p));
        assert(new_files == store_remove(files, p));
    }
    lemma_listing_no_id(new_files, folder, key, p, 0);
    lemma_sort_desc_no_id(listing_from(new_files, folder, key, 0), p);
}

proof fn lemma_listing_contains_from(
    files: Seq<FileRec>,
    folder: Seq<char>,
    key: Option<Seq<u8>>,
    i: int,
    j: int,
)
    requires
        0 <= i <= j < files.len(),
        entry_meta(files, files[j], folder, key) is Some,
    ensures
        listing_from(files, folder, key, i).contains(entry_meta(files, files[j], folder, key)->0),
    decreases j - i,
{
    let m = entry_meta(files, files[j], folder, key)->0;
    let listing = listing_from(files, folder, key, i);
    let rest = listing_from(files, folder, key, i + 1);
    if i == j {
        assert(listing[0] == m);
    } else {
        lemma_listing_contains_from(files, folder, key, i + 1, j);
        let t = choose|t: int| 0 <= t < rest.len() && rest[t] == m;
        match entry_meta(files, files[i], folder, key) {
            Some(_) => {
                assert(listing[t + 1] == m);
            },
            None => {
                assert(listing[t] == m);
            },
        }
    }
}

/// No omission: every note that contributes to a folder's listing appears
/// in the sorted listing.
pub proof fn lemma_listed_note_included(
    files: Seq<FileRec>,
    folder: Seq<char>,
    key: Option<Seq<u8>>,
    j: int,
)
    requires
        0 <= j < files.len(),
        entry_meta(files, files[j], folder, key) is Some,
    ensures
        sort_desc(listing_from(files, folder, key, 0)).contains(
            entry_meta(files, files[j], folder, key)->0,
        ),
{
    broadcast use vstd::seq_lib::group_to_multiset_ensures;

    let m = entry_meta(files, files[j], folder, key)->0;
    let unsorted = listing_from(files, folder, key, 0);
    lemma_listing_contains_from(files, folder, key, 0, j);
    lemma_sort_desc_props(unsorted);
    assert(unsorted.to_multiset().count(m) > 0);
    assert(sort_desc(unsorted).to_multiset().count(m) > 0);
}

/// Ancillary facts about a listed note that the sort keeps: the `path`
/// field mirrors `id`, and the display date is a well-formed month-day
/// rendering or the unknown marker.
pub open spec fn meta_display_ok(m: NoteMeta) -> bool {
    &&& m.path@ == m.id@
    &&& ((exists|mo: u8, da: u8|
        1 <= mo <= 12 && 1 <= da <= 31 && m.modified@ == #[trigger] month_day_string(mo, da))
        || m.modified@ == "Unknown"@)
}

/// List the notes of one folder: encrypted pairs and legacy files merged,
/// notes that cannot be decrypted silently omitted, ordered by modification
/// time descending with ties kept in enumeration order.
pub fn list_notes(files: &NoteFiles, folder: &str, vault: &VaultSession) -> (r: Vec<NoteMeta>)
    requires
        files.wf(),
        vault.wf(),
    ensures
        meta_views(r@) == sort_desc(listing_from(files@, folder@, vault.key_view(), 0)),
        forall|i: int| 0 <= i < r@.len() ==> meta_display_ok(#[trigger] r@[i]),
{
    let folder_chars = chars_of(folder);
    let ghost key = vault.key_view();
    let mut collected: Vec<NoteMeta> = Vec::new();
    let mut i: usize = 0;
    let n = files.len();
    proof {
        assert(meta_views(collected@) =~= Seq::<MetaRec>::empty());
        assert(meta_views(collected@) + listing_from(files@, folder@, key, 0) =~= listing_from(
            files@,
            folder@,
            key,
            0,
        ));
    }
    while i < n
        invariant
            files.wf(),
            vault.wf(),
            key == vault.key_view(),
            folder_chars@ == folder@,
            n == files@.len(),
            i <= n,
            listing_from(files@, folder@, key, 0) == meta_views(collected@) + listing_from(
                files@,
                folder@,
                key,
                i as int,
            ),
            forall|t: int| 0 <= t < collected@.len() ==> meta_display_ok(#[trigger] collected@[t]),
        decreases n - i,
    {
        let path_chars = chars_of(files.path_at(i));
        let ghost rec = files@[i as int];
        let mut meta: Option<NoteMeta> = None;
        if in_folder_exec(&path_chars, &folder_chars) {
            let kind = ext_kind(&path_chars);
            if kind == 1 {
                let cut = stem_end_exec(&path_chars);
                let base_chars = sub_chars(&path_chars, 0, cut);
                let base = string_from_chars(&base_chars);
                proof {
                    assert(base@ =~= strip_ext(rec.path));
                }
                match read_encrypted_note(files, base.as_str(), vault) {
                    Ok(content) => {
                        let start = match rfind_char(&path_chars, '/') {
                            Some(sl) => sl + 1,
                            None => 0,
                        };
                        let stem_chars = sub_chars(&path_chars, start, cut);
                        proof {
                            assert(stem_chars@ =~= stem_of(rec.path));
                        }
                        let content_chars = chars_of(content.as_str());
                        let title = string_from_chars(&extract_title(&content_chars, &stem_chars));
                        let preview = string_from_chars(&extract_preview(&content_chars));
                        let wc = count_words(&content_chars);
                        let secs = files.modified_at(i);
                        let display = format_date(secs);
                        meta = Some(
                            NoteMeta {
                                id: base,
                                path: string_from_chars(&base_chars),
                                title,
                                preview,
                                modified: display,
                                word_count: wc,
                                modified_secs: secs,
                            },
                        );
                    },
                    Err(_) => {},
                }
            } else if kind == 2 || kind == 3 {
                match files.read_file(files.path_at(i)) {
                    Some(data) => {
                        match string_from_utf8(data) {
                            Some(content) => {
                                let cut = stem_end_exec(&path_chars);
                                let start = match rfind_char(&path_chars, '/') {
                                    Some(sl) => sl + 1,
                                    None => 0,
                                };
                                let stem_chars = sub_chars(&path_chars, start, cut);
                                proof {
                                    assert(stem_chars@ =~= stem_of(rec.path));
                                }
                                let content_chars = chars_of(content.as_str());
                                let title = string_from_chars(
                                    &extract_title(&content_chars, &stem_chars),
                                );
                                let preview = string_from_chars(&extract_preview(&content_chars));
                                let wc = count_words(&content_chars);
                                let secs = files.modified_at(i);
                                let display = format_date(secs);
                                meta = Some(
                                    NoteMeta {
                                        id: string_from_chars(&path_chars),
                                        path: string_from_chars(&path_chars),
                                        title,
                                        preview,
                                        modified: display,
                                        word_count: wc,
                                        modified_secs: secs,
                                    },
                                );
                            },
                            None => {},
                        }
                    },
                    None => {},
                }
            }
        }
        proof {
            assert(lookup(files@, rec.path) == Some(rec)) by {
                lemma_lookup_at(files@, rec.path, i as int);
            }
        }
        let ghost old_collected = collected@;
        match meta {
            Some(m) => {
                proof {
                    assert(entry_meta(files@, rec, folder@, key) == Some(m@));
                }
                collected.push(m);
                proof {
                    assert(meta_views(collected@) =~= meta_views(old_collected).push(
                        entry_meta(files@, rec, folder@, key)->0,
                    ));
                    assert(meta_views(old_collected).push(entry_meta(files@, rec, folder@, key)->0)
                        + listing_from(files@, folder@, key, i + 1) =~= meta_views(old_collected)
                        + listing_from(files@, folder@, key, i as int));
                }
            },
            None => {
                proof {
                    assert(entry_meta(files@, rec, folder@, key) is None);
                }
            },
        }
        i = i + 1;
    }
    proof {
        assert(listing_from(files@, folder@, key, n as int) =~= Seq::<MetaRec>::empty());
        assert(meta_views(collected@) + Seq::<MetaRec>::empty() =~= meta_views(collected@));
    }
    let ghost unsorted = meta_views(collected@);
    let ghost orig = collected@;
    let mut sorted: Vec<NoteMeta> = Vec::new();
    let mut k: usize = 0;
    let total = collected.len();
    proof {
        assert(meta_views(orig.take(0)) =~= Seq::<MetaRec>::empty());
        assert(meta_views(sorted@) =~= sort_desc(meta_views(orig.take(0))));
    }
    while k < total
        invariant
            total == orig.len(),
            collected@ == orig,
            k <= total,
            meta_views(sorted@) == sort_desc(meta_views(orig.take(k as int))),
            sorted@.len() == k,
            forall|t: int| 0 <= t < orig.len() ==> meta_display_ok(#[trigger] orig[t]),
            forall|t: int| 0 <= t < sorted@.len() ==> meta_display_ok(#[trigger] sorted@[t]),
        decreases total - k,
    {
        let m = copy_meta(&collected, k);
        let mut j: usize = 0;
        while j < sorted.len() && sorted[j].modified_secs >= m.modified_secs
            invariant
                j <= sorted@.len(),
                forall|t: int| 0 <= t < j ==> (#[trigger] sorted@[t]@).modified >= m@.modified,
            decreases sorted@.len() - j,
        {
            j = j + 1;
        }
        proof {
            lemma_insert_desc_at(meta_views(sorted@), m@, j as int);
        }
        let ghost old_sorted = sorted@;
        sorted.insert(j, m);
        proof {
            assert(meta_views(sorted@) =~= insert_desc(meta_views(old_sorted), orig[k as int]@));
            assert(meta_views(orig.take(k + 1)).drop_last() =~= meta_views(orig.take(k as int)));
            assert(meta_views(orig.take(k + 1)).last() == orig[k as int]@);
            assert(sort_desc(meta_views(orig.take(k + 1))) == insert_desc(
                sort_desc(meta_views(orig.take(k as int))),
                orig[k as int]@,
            ));
            assert forall|t: int| 0 <= t < sorted@.len() implies meta_display_ok(
                #[trigger] sorted@[t],
            ) by {
                if t < j {
                    assert(sorted@[t] == old_sorted[t]);
                } else if t == j {
                    assert(sorted@[t] == orig[k as int]);
                } else {
                    assert(sorted@[t] == old_sorted[t - 1]);
                }
            }
        }
        k = k + 1;
    }
    proof {
        assert(orig.take(total as int) =~= orig);
        assert(meta_views(orig.take(total as int)) =~= unsorted);
    }
    sorted
}

/// A field-for-field copy of the note metadata at `k`.
fn copy_meta(v: &Vec<NoteMeta>, k: usize) -> (r: NoteMeta)
    requires
        k < v@.len(),
    ensures
        r == v@[k as int],
{
    let m = &v[k];
    NoteMeta {
        id: m.id.clone(),
        path: m.path.clone(),
        title: m.title.clone(),
        preview: m.preview.clone(),
        modified: m.modified.clone(),
        word_count: m.word_count,
        modified_secs: m.modified_secs,
    }
}

/// The mathematical image of one line match.
pub ghost struct MatchRec {
    /// 1-based line number.
    pub line_number: int,
    /// The matching line, trimmed.
    pub line_content: Seq<char>,
}

/// One matching line of a note.
#[derive(Debug)]
pub struct SearchMatch {
    /// 1-based line number.
    pub line_number: usize,
    /// The matching line, trimmed.
    pub line_content: String,
}

impl View for SearchMatch {
    type V = MatchRec;

    open spec fn view(&self) -> MatchRec {
        MatchRec { line_number: self.line_number as int, line_content: self.line_content@ }
    }
}

/// The views of a vector of line matches.
pub open spec fn match_views(s: Seq<SearchMatch>) -> Seq<MatchRec> {
    Seq::new(s.len(), |i: int| s[i]@)
}

/// The mathematical image of one note's search result.
pub ghost struct SearchRec {
    /// The logical relative path.
    pub path: Seq<char>,
    /// Display title.
    pub title: Seq<char>,
    /// The matching lines, in order.
    pub matches: Seq<MatchRec>,
}

/// All matching lines of one note.
#[derive(Debug)]
pub struct SearchResult {
    /// The logical relative path.
    pub path: String,
    /// Display title.
    pub title: String,
    /// The matching lines, in order.
    pub matches: Vec<SearchMatch>,
}

impl View for SearchResult {
    type V = SearchRec;

    open spec fn view(&self) -> SearchRec {
        SearchRec { path: self.path@, title: self.title@, matches: match_views(self.matches@) }
    }
}

/// The views of a vector of search results.
pub open spec fn result_views(s: Seq<SearchResult>) -> Seq<SearchRec> {
    Seq::new(s.len(), |i: int| s[i]@)
}

/// The case-insensitive line matches of a query against the lines from
/// index `i` on: 1-based line numbers with the trimmed line text. Case
/// folding is `lower_of`, the Unicode folding of `str::to_lowercase`.
pub open spec fn match_lines(lines: Seq<Seq<char>>, query_lower: Seq<char>, i: int) -> Seq<
    MatchRec,
>
    decreases lines.len() - i,
{
    if i < 0 || i >= lines.len() {
        Seq::empty()
    } else {
        let rest = match_lines(lines, query_lower, i + 1);
        if contains_sub(lower_of(lines[i]), query_lower) {
            seq![MatchRec { line_number: i + 1, line_content: trimmed(lines[i]) }] + rest
        } else {
            rest
        }
    }
}

/// The search result of one note's content, if any line matches.
pub open spec fn search_hit(
    path: Seq<char>,
    stem: Seq<char>,
    content: Seq<char>,
    query_lower: Seq<char>,
) -> Option<SearchRec> {
    let ms = match_lines(lines_of(content), query_lower, 0);
    if ms.len() == 0 {
        None
    } else {
        Some(SearchRec { path, title: title_of(content, stem), matches: ms })
    }
}

/// The search result that one stored file contributes, if any: files that
/// cannot be decrypted or read are skipped.
pub open spec fn search_entry(
    files: Seq<FileRec>,
    rec: FileRec,
    query_lower: Seq<char>,
    key: Option<Seq<u8>>,
) -> Option<SearchRec> {
    if ext_kind_spec(rec.path) == 1 {
        match note_read_spec(files, strip_ext(rec.path), key) {
            Ok(content) => search_hit(
                strip_ext(rec.path),
                stem_of(rec.path),
                content,
                query_lower,
            ),
            Err(_) => None,
        }
    } else if ext_kind_spec(rec.path) == 2 || ext_kind_spec(rec.path) == 3 {
        if valid_utf8(rec.data) {
            search_hit(rec.path, stem_of(rec.path), decode_utf8(rec.data), query_lower)
        } else {
            None
        }
    } else {
        None
    }
}

/// All search results over the whole note tree, in enumeration order,
/// starting at entry `i`.
pub open spec fn search_from(
    files: Seq<FileRec>,
    query_lower: Seq<char>,
    key: Option<Seq<u8>>,
    i: int,
) -> Seq<SearchRec>
    decreases files.len() - i,
{
    if i < 0 || i >= files.len() {
        Seq::empty()
    } else {
        let rest = search_from(files, query_lower, key, i + 1);
        match search_entry(files, files[i], query_lower, key) {
            Some(sr) => seq![sr] + rest,
            None => rest,
        }
    }
}

/// A query that no line contains (case-insensitively) matches nothing.
pub proof fn lemma_no_line_matches(lines: Seq<Seq<char>>, query_lower: Seq<char>, i: int)
    requires
        forall|j: int|
            i <= j < lines.len() ==> !contains_sub(lower_of(#[trigger] lines[j]), query_lower),
    ensures
        match_lines(lines, query_lower, i) == Seq::<MatchRec>::empty(),
    decreases lines.len() - i,
{
    if 0 <= i < lines.len() {
        lemma_no_line_matches(lines, query_lower, i + 1);
    }
}

/// A query that exactly one line contains (case-insensitively) gives
/// exactly one match: that line's 1-based number with its trimmed text.
pub proof fn lemma_single_line_match(lines: Seq<Seq<char>>, query_lower: Seq<char>, k: int)
    requires
        0 <= k < lines.len(),
        contains_sub(lower_of(lines[k]), query_lower),
        forall|j: int|
            0 <= j < lines.len() && j != k ==> !contains_sub(
                lower_of(#[trigger] lines[j]),
                query_lower,
            ),
    ensures
        match_lines(lines, query_lower, 0) == seq![
            MatchRec { line_number: k + 1, line_content: trimmed(lines[k]) },
        ],
{
    lemma_single_line_match_from(lines, query_lower, k, 0);
}

proof fn lemma_single_line_match_from(
    lines: Seq<Seq<char>>,
    query_lower: Seq<char>,
    k: int,
    i: int,
)
    requires
        0 <= i <= k < lines.len(),
        contains_sub(lower_of(lines[k]), query_lower),
        forall|j: int|
            0 <= j < lines.len() && j != k ==> !contains_sub(
                lower_of(#[trigger] lines[j]),
                query_lower,
            ),
    ensures
        match_lines(lines, query_lower, i) == seq![
            MatchRec { line_number: k + 1, line_content: trimmed(lines[k]) },
        ],
    decreases lines.len() - i,
{
    let hit = MatchRec { line_number: k + 1, line_content: trimmed(lines[k]) };
    if i == k {
        lemma_no_line_matches(lines, query_lower, k + 1);
        assert(match_lines(lines, query_lower, i) =~= seq![hit]);
    } else {
        lemma_single_line_match_from(lines, query_lower, k, i + 1);
    }
}

/// When no stored file contributes a hit, the search result is empty.
pub proof fn lemma_search_nothing(
    files: Seq<FileRec>,
    query_lower: Seq<char>,
    key: Option<Seq<u8>>,
    i: int,
)
    requires
        forall|j: int|
            i <= j < files.len() ==> search_entry(
                files,
                #[trigger] files[j],
                query_lower,
                key,
            ) is None,
    ensures
        search_from(files, query_lower, key, i) == Seq::<SearchRec>::empty(),
    decreases files.len() - i,
{
    if 0 <= i < files.len() {
        lemma_search_nothing(files, query_lower, key, i + 1);
    }
}

/// Collect the case-insensitive matches of a query against a note's lines.
fn collect_matches(content_chars: &Vec<char>, query_lower: &Vec<char>) -> (r: Vec<SearchMatch>)
    ensures
        match_views(r@) == match_lines(lines_of(content_chars@), query_lower@, 0),
{
    let lines = split_lines(content_chars);
    let ghost ls = views_of(lines@);
    let mut matches: Vec<SearchMatch> = Vec::new();
    let mut li: usize = 0;
    let nlines = lines.len();
    proof {
        assert(match_views(matches@) =~= Seq::<MatchRec>::empty());
        assert(match_views(matches@) + match_lines(ls, query_lower@, 0) =~= match_lines(
            ls,
            query_lower@,
            0,
        ));
    }
    while li < nlines
        invariant
            ls == views_of(lines@),
            ls == lines_of(content_chars@),
            nlines == lines@.len(),
            li <= nlines,
            match_lines(ls, query_lower@, 0) == match_views(matches@) + match_lines(
                ls,
                query_lower@,
                li as int,
            ),
        decreases lines@.len() - li,
    {
        proof {
            assert(lines@[li as int]@ == ls[li as int]);
        }
        let line_text = string_from_chars(&lines[li]);
        let lowered = chars_of(lowercase_str(line_text.as_str()).as_str());
        let ghost old_matches = matches@;
        if contains_chars(&lowered, query_lower) {
            let trimmed_line = trim_chars(&lines[li]);
            matches.push(
                SearchMatch {
                    line_number: li + 1,
                    line_content: string_from_chars(&trimmed_line),
                },
            );
            proof {
                assert(match_views(matches@) =~= match_views(old_matches).push(
                    MatchRec { line_number: li + 1, line_content: trimmed(ls[li as int]) },
                ));
                assert(match_views(old_matches).push(
                    MatchRec { line_number: li + 1, line_content: trimmed(ls[li as int]) },
                ) + match_lines(ls, query_lower@, li + 1) =~= match_views(old_matches)
                    + match_lines(ls, query_lower@, li as int));
            }
        }
        li = li + 1;
    }
    proof {
        assert(match_lines(ls, query_lower@, lines@.len() as int) =~= Seq::<MatchRec>::empty());
        assert(match_views(matches@) + Seq::<MatchRec>::empty() =~= match_views(matches@));
    }
    matches
}

/// Search every note for a query: case-insensitive, line by line, over
/// decrypted and legacy content alike; unreadable files are skipped.
pub fn search_notes(files: &NoteFiles, query: &str, vault: &VaultSession) -> (r: Vec<
    SearchResult,
>)
    requires
        files.wf(),
        vault.wf(),
    ensures
        result_views(r@) == search_from(files@, lower_of(query@), vault.key_view(), 0),
{
    let query_lower = chars_of(lowercase_str(query).as_str());
    let ghost qlow = lower_of(query@);
    let ghost key = vault.key_view();
    let mut results: Vec<SearchResult> = Vec::new();
    let mut i: usize = 0;
    let n = files.len();
    proof {
        assert(result_views(results@) =~= Seq::<SearchRec>::empty());
        assert(result_views(results@) + search_from(files@, qlow, key, 0) =~= search_from(
            files@,
            qlow,
            key,
            0,
        ));
    }
    while i < n
        invariant
            files.wf(),
            vault.wf(),
            key == vault.key_view(),
            query_lower@ == qlow,
            n == files@.len(),
            i <= n,
            search_from(files@, qlow, key, 0) == result_views(results@) + search_from(
                files@,
                qlow,
                key,
                i as int,
            ),
        decreases n - i,
    {
        let path_chars = chars_of(files.path_at(i));
        let ghost rec = files@[i as int];
        let mut hit: Option<SearchResult> = None;
        let kind = ext_kind(&path_chars);
        if kind == 1 {
            let cut = stem_end_exec(&path_chars);
            let base_chars = sub_chars(&path_chars, 0, cut);
            let base = string_from_chars(&base_chars);
            proof {
                assert(base@ =~= strip_ext(rec.path));
            }
            match read_encrypted_note(files, base.as_str(), vault) {
                Ok(content) => {
                    let content_chars = chars_of(content.as_str());
                    let matches = collect_matches(&content_chars, &query_lower);
                    if matches.len() > 0 {
                        let start = match rfind_char(&path_chars, '/') {
                            Some(sl) => sl + 1,
                            None => 0,
                        };
                        let stem_chars = sub_chars(&path_chars, start, cut);
                        proof {
                            assert(stem_chars@ =~= stem_of(rec.path));
                        }
                        let title = string_from_chars(&extract_title(&content_chars, &stem_chars));
                        hit = Some(SearchResult { path: base, title, matches });
                    }
                },
                Err(_) => {},
            }
        } else if kind == 2 || kind == 3 {
            match files.read_file(files.path_at(i)) {
                Some(data) => {
                    match string_from_utf8(data) {
                        Some(content) => {
                            let content_chars = chars_of(content.as_str());
                            let matches = collect_matches(&content_chars, &query_lower);
                            if matches.len() > 0 {
                                let cut = stem_end_exec(&path_chars);
                                let start = match rfind_char(&path_chars, '/') {
                                    Some(sl) => sl + 1,
                                    None => 0,
                                };
                                let stem_chars = sub_chars(&path_chars, start, cut);
                                proof {
                                    assert(stem_chars@ =~= stem_of(rec.path));
                                }
                                let title = string_from_chars(
                                    &extract_title(&content_chars, &stem_chars),
                                );
                                hit = Some(
                                    SearchResult {
                                        path: string_from_chars(&path_chars),
                                        title,
                                        matches,
                                    },
                                );
                            }
                        },
                        None => {},
                    }
                },
                None => {},
            }
        }
        proof {
            lemma_lookup_at(files@, rec.path, i as int);
        }
        let ghost old_results = results@;
        match hit {
            Some(sr) => {
                proof {
                    assert(search_entry(files@, rec, qlow, key) == Some(sr@));
                }
                results.push(sr);
                proof {
                    assert(result_views(results@) =~= result_views(old_results).push(
                        search_entry(files@, rec, qlow, key)->0,
                    ));
                    assert(result_views(old_results).push(search_entry(files@, rec, qlow, key)->0)
                        + search_from(files@, qlow, key, i + 1) =~= result_views(old_results)
                        + search_from(files@, qlow, key, i as int));
                }
            },
            None => {
                proof {
                    assert(search_entry(files@, rec, qlow, key) is None);
                }
            },
        }
        i = i + 1;
    }
    proof {
        assert(search_from(files@, qlow, key, n as int) =~= Seq::<SearchRec>::empty());
        assert(result_views(results@) + Seq::<SearchRec>::empty() =~= result_views(results@));
    }
    results
}

/// The relative path of `name` inside `folder` (the empty folder is the
/// note root).
pub open spec fn join_folder(folder: Seq<char>, name: Seq<char>) -> Seq<char> {
    if folder.len() == 0 {
        name
    } else {
        folder + seq!['/'] + name
    }
}

/// The base name of the `k`-th candidate for a created note: date and slug,
/// with a duplicate counter from the second candidate on.
pub open spec fn note_base_name(date: Seq<char>, slug: Seq<char>, k: int) -> Seq<char> {
    if k == 0 {
        date + seq!['-'] + slug
    } else {
        date + seq!['-'] + slug + seq!['-'] + dec_digits(k)
    }
}

/// The view of an optional title.
pub open spec fn opt_str_view(t: Option<&str>) -> Option<Seq<char>> {
    match t {
        Some(s) => Some(s@),
        None => None,
    }
}

/// The file-name slug of an optional title.
pub open spec fn create_slug(title: Option<Seq<char>>) -> Seq<char> {
    match title {
        Some(t) => slug_of(t),
        None => "untitled"@,
    }
}

/// The initial content of a created note: a heading from its title.
pub open spec fn initial_note_content(title: Option<Seq<char>>) -> Seq<char> {
    match title {
        Some(t) => seq!['#', ' '] + t + seq!['\n', '\n'],
        None => "# Untitled\n\n"@,
    }
}

/// That `new_files` holds a note newly created from `title` on `date` at
/// `path`: some free candidate path, now carrying the initial content in
/// encrypted form.
pub open spec fn created_note(
    old_files: Seq<FileRec>,
    new_files: Seq<FileRec>,
    path: Seq<char>,
    folder: Seq<char>,
    title: Option<Seq<char>>,
    key: Seq<u8>,
    date: Seq<char>,
    now: int,
) -> bool {
    exists|k: int, dek: Seq<u8>|
        #![trigger note_base_name(date, create_slug(title), k), written_note(
            old_files,
            new_files,
            path,
            initial_note_content(title),
            key,
            dek,
            now,
        )]
        {
            &&& 0 <= k <= old_files.len()
            &&& path == join_folder(folder, note_base_name(date, create_slug(title), k))
            &&& !is_encrypted_spec(old_files, path)
            &&& written_note(
                old_files,
                new_files,
                path,
                initial_note_content(title),
                key,
                dek,
                now,
            )
        }
}

/// Create a note in `folder` on the given date: pick the first free
/// dated-and-slugged name, and store the initial heading content encrypted.
pub fn create_note_on(
    files: &mut NoteFiles,
    vault: &VaultSession,
    folder: &str,
    title: Option<&str>,
    year: i64,
    month: u8,
    day: u8,
    now_secs: i64,
) -> (r: Result<String, VaultError>)
    requires
        old(files).wf(),
        vault.wf(),
        -1000000 <= year <= 1000000,
    ensures
        final(files).wf(),
        r matches Ok(p) ==> {
            &&& vault.is_unlocked()
            &&& created_note(
                old(files)@,
                final(files)@,
                p@,
                folder@,
                opt_str_view(title),
                vault.key_view()->0,
                ymd_string(year, month, day),
                now_secs as int,
            )
            &&& read_note_spec(final(files)@, p@, vault.key_view()) == Ok::<Seq<char>, VaultError>(
                initial_note_content(opt_str_view(title)),
            )
        },
        ({
            &&& vault.is_unlocked()
            &&& !is_encrypted_spec(
                old(files)@,
                join_folder(
                    folder@,
                    note_base_name(
                        ymd_string(year, month, day),
                        create_slug(opt_str_view(title)),
                        0,
                    ),
                ),
            )
            &&& encode_utf8(initial_note_content(opt_str_view(title))).len() <= MAX_PLAINTEXT_LEN
        }) ==> r is Ok,
        r matches Err(e) ==> final(files)@ == old(files)@,
{
    let folder_chars = chars_of(folder);
    let date_chars = format_ymd(year, month, day);
    let slug_chars = match title {
        Some(t) => {
            let tc = chars_of(t);
            slugify(&tc)
        },
        None => chars_of("untitled"),
    };
    let ghost tview = opt_str_view(title);
    let ghost date = ymd_string(year, month, day);
    let ghost slug = create_slug(tview);
    let mut base0: Vec<char> = Vec::new();
    base0.append(&mut clone_chars(&date_chars));
    base0.push('-');
    base0.append(&mut clone_chars(&slug_chars));
    proof {
        assert(base0@ =~= note_base_name(date, slug, 0));
    }
    let content = match title {
        Some(t) => {
            let mut c: Vec<char> = Vec::new();
            c.push('#');
            c.push(' ');
            c.append(&mut clone_chars(&chars_of(t)));
            c.push('\n');
            c.push('\n');
            proof {
                assert(c@ =~= initial_note_content(tview));
            }
            string_from_chars(&c)
        },
        None => String::from_str("# Untitled\n\n"),
    };
    let limit = files.len();
    let mut k: usize = 0;
    loop
        invariant
            files.wf(),
            vault.wf(),
            files@ == old(files)@,
            folder_chars@ == folder@,
            tview == opt_str_view(title),
            date == ymd_string(year, month, day),
            slug == create_slug(tview),
            base0@ == note_base_name(date, slug, 0),
            content@ == initial_note_content(tview),
            limit == old(files)@.len(),
            k <= limit,
            k > 0 ==> is_encrypted_spec(files@, join_folder(folder@, note_base_name(date, slug, 0))),
        decreases limit + 1 - k,
    {
        let mut name: Vec<char> = clone_chars(&base0);
        if k > 0 {
            name.push('-');
            name.append(&mut to_decimal(k as u64));
            proof {
                assert(name@ =~= note_base_name(date, slug, k as int));
            }
        }
        let mut cand: Vec<char> = Vec::new();
        if folder_chars.len() > 0 {
            cand.append(&mut clone_chars(&folder_chars));
            cand.push('/');
        }
        cand.append(&mut name);
        proof {
            assert(cand@ =~= join_folder(folder@, note_base_name(date, slug, k as int)));
        }
        let cand_str = string_from_chars(&cand);
        if !is_encrypted(files, cand_str.as_str()) {
            match write_encrypted_note(files, cand_str.as_str(), content.as_str(), vault, None, now_secs) {
                Ok(()) => {
                    proof {
                        let dek = choose|dek: Seq<u8>|
                            written_note(
                                old(files)@,
                                files@,
                                cand_str@,
                                content@,
                                vault.key_view()->0,
                                dek,
                                now_secs as int,
                            );
                        lemma_saved_note_reads_back(
                            old(files)@,
                            files@,
                            cand_str@,
                            content@,
                            vault.key_view()->0,
                            dek,
                            now_secs as int,
                        );
                        assert(written_note(
                            old(files)@,
                            files@,
                            cand_str@,
                            initial_note_content(tview),
                            vault.key_view()->0,
                            dek,
                            now_secs as int,
                        ));
                        assert(cand_str@ == join_folder(
                            folder@,
                            note_base_name(date, create_slug(tview), k as int),
                        ));
                        assert(created_note(
                            old(files)@,
                            files@,
                            cand_str@,
                            folder@,
                            tview,
                            vault.key_view()->0,
                            date,
                            now_secs as int,
                        ));
                    }
                    return Ok(cand_str);
                },
                Err(e) => {
                    proof {
                        if vault.is_unlocked() && encode_utf8(initial_note_content(tview)).len()
                            <= MAX_PLAINTEXT_LEN {
                            assert(encode_utf8(content@).len() <= MAX_PLAINTEXT_LEN);
                            assert(false);
                        }
                    }
                    return Err(e);
                },
            }
        }
        if k >= limit {
            proof {
                let c0 = join_folder(folder@, note_base_name(date, create_slug(tview), 0));
                if !is_encrypted_spec(old(files)@, c0) {
                    assert(is_encrypted_spec(files@, cand_str@));
                    if k == 0 {
                        assert(cand_str@ == c0);
                    }
                    assert(false);
                }
            }
            return Err(VaultError::IoFailure);
        }
        k = k + 1;
    }
}

/// Create a note in `folder` under today's local date. Succeeds whenever
/// the session is unlocked, the initial content is within the cipher's
/// bound, and no date's first candidate name is already taken — so no
/// outcome of the clock can make it fail.
pub fn create_note(
    files: &mut NoteFiles,
    vault: &VaultSession,
    folder: &str,
    title: Option<&str>,
    now_secs: i64,
) -> (r: Result<String, VaultError>)
    requires
        old(files).wf(),
        vault.wf(),
    ensures
        final(files).wf(),
        ({
            &&& vault.is_unlocked()
            &&& encode_utf8(initial_note_content(opt_str_view(title))).len()
                <= MAX_PLAINTEXT_LEN
            &&& (forall|y: i64, mo: u8, da: u8|
                -1000000 <= y <= 1000000 && 1 <= mo <= 12 && 1 <= da <= 31
                    ==> !is_encrypted_spec(
                        old(files)@,
                        join_folder(
                            folder@,
                            note_base_name(
                                #[trigger] ymd_string(y, mo, da),
                                create_slug(opt_str_view(title)),
                                0,
                            ),
                        ),
                    ))
        }) ==> r is Ok,
        r matches Ok(p) ==> {
            &&& vault.is_unlocked()
            &&& exists|y: i64, mo: u8, da: u8|
                {
                    &&& -1000000 <= y <= 1000000
                    &&& 1 <= mo <= 12
                    &&& 1 <= da <= 31
                    &&& created_note(
                        old(files)@,
                        final(files)@,
                        p@,
                        folder@,
                        opt_str_view(title),
                        vault.key_view()->0,
                        #[trigger] ymd_string(y, mo, da),
                        now_secs as int,
                    )
                }
            &&& read_note_spec(final(files)@, p@, vault.key_view()) == Ok::<Seq<char>, VaultError>(
                initial_note_content(opt_str_view(title)),
            )
        },
        r matches Err(e) ==> final(files)@ == old(files)@,
{
    let today = local_today_call();
    let (year, month, day) = today;
    create_note_on(files, vault, folder, title, year, month, day, now_secs)
}

/// A copy of a character vector.
fn clone_chars(v: &Vec<char>) -> (r: Vec<char>)
    ensures
        r@ == v@,
{
    let mut r: Vec<char> = Vec::new();
    let mut i: usize = 0;
    while i < v.len()
        invariant
            i <= v@.len(),
            r@ == v@.take(i as int),
        decreases v@.len() - i,
    {
        r.push(v[i]);
        i = i + 1;
        proof {
            assert(r@ =~= v@.take(i as int));
        }
    }
    proof {
        assert(v@.take(v@.len() as int) =~= v@);
    }
    r
}

/// One folder of the note tree, with its subfolders. The tree itself is
/// enumerated by the surrounding application; the vault only stores notes.
#[derive(Debug)]
pub struct FolderInfo {
    /// The folder's own name.
    pub name: String,
    /// Its path relative to the note root.
    pub path: String,
    /// Its subfolders, sorted for display.
    pub children: Vec<FolderInfo>,
}

} // verus!
