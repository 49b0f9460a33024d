//! Recovery codes: a human-enterable secret, independent of the password,
//! whose derived key wraps the master key so it can be recovered.

use vstd::prelude::*;

use crate::aead::{decrypt, decrypt_spec, encrypt, os_random_bytes, KEY_LEN, NONCE_LEN, TAG_LEN};
use crate::errors::VaultError;
use crate::keys::{derivable, kek_spec, Kek};
use crate::text::{
    chars_of, dash_grouped, format_groups, string_from_chars, strip_pred, strip_separators,
};

verus! {

/// Number of random bytes behind a recovery code (24 base64 characters).
pub const RECOVERY_CODE_BYTES: usize = 18;

/// What standard base64 encoding returns for a byte sequence. A pure
/// function of its argument.
pub uninterp spec fn base64_std(bytes: Seq<u8>) -> Seq<char>;

/// The characters the standard base64 alphabet can produce.
pub open spec fn is_base64_char(c: char) -> bool {
    ('A' <= c && c <= 'Z') || ('a' <= c && c <= 'z') || ('0' <= c && c <= '9') || c == '+' || c
        == '/' || c == '='
}

/// Relies on base64's `STANDARD` engine through `Engine::encode`:
/// deterministic standard base64; 18 input bytes give exactly 24 characters,
/// all from the standard alphabet (so never a dash or a space), and padding
/// appears only when the input is not a whole number of 3-byte groups.
#[verifier::external_body]
fn base64_encode_call(bytes: &[u8]) -> (r: String)
    ensures
        r@ == base64_std(bytes@),
        bytes@.len() == RECOVERY_CODE_BYTES ==> r@.len() == 24,
        forall|i: int| 0 <= i < r@.len() ==> is_base64_char(#[trigger] r@[i]),
        bytes@.len() % 3 == 0 ==> (forall|i: int| 0 <= i < r@.len() ==> (#[trigger] r@[i]) != '='),
{
    base64::Engine::encode(&base64::engine::general_purpose::STANDARD, bytes)
}

/// The secret that a recovery code denotes: its text without the display
/// dashes. This string, not its decoding, feeds the derivation function.
pub open spec fn secret_of(code: Seq<char>) -> Seq<char> {
    code.filter(strip_pred(false))
}

proof fn lemma_filter_all(s: Seq<char>, pred: spec_fn(char) -> bool)
    requires
        forall|i: int| 0 <= i < s.len() ==> pred(#[trigger] s[i]),
    ensures
        s.filter(pred) == s,
    decreases s.len(),
{
    reveal(Seq::filter);
    if s.len() > 0 {
        assert(pred(s.last()));
        lemma_filter_all(s.drop_last(), pred);
        assert(s.filter(pred) =~= s);
    }
}

proof fn lemma_filter_none(s: Seq<char>, pred: spec_fn(char) -> bool)
    requires
        forall|i: int| 0 <= i < s.len() ==> !pred(#[trigger] s[i]),
    ensures
        s.filter(pred) == Seq::<char>::empty(),
    decreases s.len(),
{
    reveal(Seq::filter);
    if s.len() > 0 {
        assert(!pred(s.last()));
        lemma_filter_none(s.drop_last(), pred);
    }
}

/// Grouping inserts dashes and nothing else: every character of the grouped
/// form satisfies the source predicate or is a dash.
pub proof fn lemma_dash_grouped_chars(s: Seq<char>, pred: spec_fn(char) -> bool)
    requires
        forall|i: int| 0 <= i < s.len() ==> pred(#[trigger] s[i]),
    ensures
        forall|i: int|
            0 <= i < dash_grouped(s).len() ==> (pred(#[trigger] dash_grouped(s)[i])
                || dash_grouped(s)[i] == '-'),
    decreases s.len(),
{
    if s.len() > 4 {
        let rest = s.skip(4);
        assert forall|i: int| 0 <= i < rest.len() implies pred(#[trigger] rest[i]) by {
            assert(rest[i] == s[i + 4]);
        }
        lemma_dash_grouped_chars(rest, pred);
        assert forall|i: int| 0 <= i < dash_grouped(s).len() implies (pred(
            #[trigger] dash_grouped(s)[i],
        ) || dash_grouped(s)[i] == '-') by {
            if i < 4 {
                assert(dash_grouped(s)[i] == s[i]);
            } else if i > 4 {
                assert(dash_grouped(s)[i] == dash_grouped(rest)[i - 5]);
            }
        }
    }
}

/// Grouping a dash-free code with dashes and stripping them again gives the
/// code back: display formatting loses nothing of the secret.
pub proof fn lemma_dash_grouped_secret(s: Seq<char>)
    requires
        forall|i: int| 0 <= i < s.len() ==> #[trigger] s[i] != '-',
    ensures
        secret_of(dash_grouped(s)) == s,
    decreases s.len(),
{
    let pred = strip_pred(false);
    if s.len() <= 4 {
        lemma_filter_all(s, pred);
    } else {
        let head = s.take(4);
        let dash = seq!['-'];
        let rest = s.skip(4);
        assert forall|i: int| 0 <= i < rest.len() implies #[trigger] rest[i] != '-' by {
            assert(rest[i] == s[i + 4]);
        }
        lemma_dash_grouped_secret(rest);
        Seq::<char>::filter_distributes_over_add(head + dash, dash_grouped(rest), pred);
        Seq::<char>::filter_distributes_over_add(head, dash, pred);
        lemma_filter_all(head, pred);
        lemma_filter_none(dash, pred);
        assert(secret_of(dash_grouped(s)) =~= s);
    }
}

/// A recovery code: 24 characters of base64 text, shown as dash-separated
/// four-character groups. The base64 text itself is the secret.
pub struct RecoveryKey {
    code: String,
}

impl View for RecoveryKey {
    type V = Seq<char>;

    closed spec fn view(&self) -> Seq<char> {
        self.code@
    }
}

impl RecoveryKey {
    /// Generate a new random recovery code and format it for display: 24
    /// base64 characters, never padded, in dash-separated groups.
    pub fn generate() -> (r: RecoveryKey)
        ensures
            exists|b: Seq<u8>|
                {
                    &&& b.len() == RECOVERY_CODE_BYTES
                    &&& r@ == dash_grouped(#[trigger] base64_std(b))
                    &&& secret_of(r@) == base64_std(b)
                    &&& secret_of(r@).len() == 24
                },
            forall|i: int|
                0 <= i < r@.len() ==> (is_base64_char(#[trigger] r@[i]) || r@[i] == '-'),
            forall|i: int| 0 <= i < r@.len() ==> (#[trigger] r@[i]) != '=',
    {
        let raw = os_random_bytes(RECOVERY_CODE_BYTES);
        let encoded = base64_encode_call(raw.as_slice());
        let echars = chars_of(encoded.as_str());
        let grouped = format_groups(&echars);
        let code = string_from_chars(&grouped);
        proof {
            assert forall|i: int| 0 <= i < encoded@.len() implies #[trigger] encoded@[i]
                != '-' by {
                assert(is_base64_char(encoded@[i]));
            }
            lemma_dash_grouped_secret(encoded@);
            lemma_dash_grouped_chars(encoded@, |c: char| is_base64_char(c));
            lemma_dash_grouped_chars(encoded@, |c: char| c != '=');
        }
        RecoveryKey { code }
    }

    /// The display string of the code.
    pub fn as_str(&self) -> (r: &str)
        ensures
            r@ == self@,
    {
        self.code.as_str()
    }

    /// Parse a code from user input, dropping dashes and spaces.
    pub fn from_input(input: &str) -> (r: RecoveryKey)
        ensures
            r@ == input@.filter(strip_pred(true)),
    {
        let chars = chars_of(input);
        let stripped = strip_separators(&chars, true);
        RecoveryKey { code: string_from_chars(&stripped) }
    }

    /// The dash-free secret text of the code.
    fn secret_string(&self) -> (r: String)
        ensures
            r@ == secret_of(self@),
    {
        let chars = chars_of(self.code.as_str());
        let stripped = strip_separators(&chars, false);
        string_from_chars(&stripped)
    }
}

/// The master key wrapped under the recovery-derived key, as persisted in
/// the vault.
pub struct RecoveryData {
    /// The KEK, encrypted under the key derived from the recovery code.
    pub kek_bytes: Vec<u8>,
}

/// What `recover_kek` returns for a stored record, a recovery code and the
/// vault salt.
pub open spec fn recover_spec(record: Seq<u8>, code: Seq<char>, salt: Seq<u8>) -> Result<
    Seq<u8>,
    VaultError,
> {
    if !derivable(secret_of(code)) {
        Err(VaultError::KeyDerivationFailed)
    } else {
        match decrypt_spec(kek_spec(secret_of(code), salt), record) {
            Ok(k) => if k.len() == KEY_LEN {
                Ok(k)
            } else {
                Err(VaultError::InvalidKeySize)
            },
            Err(e) => Err(e),
        }
    }
}

impl RecoveryData {
    /// Create recovery data: derive an independent wrapping key from the
    /// code and the vault salt, and encrypt the master key under it.
    ///
    /// Recovery with the same code and salt returns exactly the wrapped KEK:
    /// that round trip is this postcondition.
    pub fn create(kek: &Kek, recovery_key: &RecoveryKey, salt: &[u8]) -> (r: Result<
        RecoveryData,
        VaultError,
    >)
        requires
            kek.wf(),
            salt@.len() == KEY_LEN,
        ensures
            r matches Ok(rec) ==> {
                &&& recover_spec(rec.kek_bytes@, recovery_key@, salt@) == Ok::<
                    Seq<u8>,
                    VaultError,
                >(kek@)
                &&& rec.kek_bytes@.len() == KEY_LEN + NONCE_LEN + TAG_LEN
            },
            derivable(secret_of(recovery_key@)) ==> r is Ok,
            r matches Err(e) ==> e == VaultError::KeyDerivationFailed || e
                == VaultError::EncryptionFailed,
    {
        let secret = recovery_key.secret_string();
        let recovery_kek = match Kek::derive(secret.as_str(), salt) {
            Ok(k) => k,
            Err(e) => {
                return Err(e);
            },
        };
        let encrypted_kek = match encrypt(recovery_kek.as_bytes(), kek.as_bytes()) {
            Ok(c) => c,
            Err(e) => {
                return Err(e);
            },
        };
        Ok(RecoveryData { kek_bytes: encrypted_kek })
    }

    /// Recover the master key using the recovery code: re-derive the same
    /// wrapping key, decrypt, and validate the key size.
    pub fn recover_kek(&self, recovery_key: &RecoveryKey, salt: &[u8]) -> (r: Result<
        Kek,
        VaultError,
    >)
        requires
            salt@.len() == KEY_LEN,
        ensures
            r matches Ok(k) ==> k.wf() && recover_spec(self.kek_bytes@, recovery_key@, salt@)
                == Ok::<Seq<u8>, VaultError>(k@),
            r matches Err(e) ==> recover_spec(self.kek_bytes@, recovery_key@, salt@) == Err::<
                Seq<u8>,
                VaultError,
            >(e),
    {
        let secret = recovery_key.secret_string();
        let recovery_kek = match Kek::derive(secret.as_str(), salt) {
            Ok(k) => k,
            Err(e) => {
                return Err(e);
            },
        };
        let kek_bytes = match decrypt(recovery_kek.as_bytes(), self.kek_bytes.as_slice()) {
            Ok(b) => b,
            Err(e) => {
                return Err(e);
            },
        };
        if kek_bytes.len() != KEY_LEN {
            return Err(VaultError::InvalidKeySize);
        }
        Ok(Kek::from_bytes(kek_bytes))
    }
}

} // verus!
