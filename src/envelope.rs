//! The persisted form of a vault: its name, salt and nonce in the clear, and
//! its payload sealed under the vault key, written as four base64 fields
//! separated by colons.
use vstd::prelude::*;
use vstd::utf8::encode_utf8;
use crate::codec::{
    credential_bytes, credential_fits, credentials_bytes, decode_payload, encode_payload,
    lemma_payload_round_trip, parse_payload, payload_bytes, payload_fits,
};
use crate::credential::{views, Credential, CredentialView};
use crate::primitives::{
    argon2_derive, argon2_key, base64_decode, base64_encode, base64_text, is_base64_symbol,
    random_nonce, siv_decrypt, siv_encrypt, siv_seal, string_from_utf8, PLAINTEXT_MAX,
};
use crate::vault::{ids_distinct, password_ok, Vault, VaultView};

verus! {

/// Why a vault could not be sealed or opened.
#[derive(PartialEq, Eq, Structural, Debug, Clone, Copy)]
pub enum VaultError {
    /// The key does not open the envelope: a wrong password, or an envelope
    /// that was altered.
    AuthenticationFailure,
    /// The persisted text is not four base64 fields of the right sizes.
    MalformedEnvelope,
    /// The envelope opened, but what it held is not a vault.
    MalformedVault,
    /// The vault's contents exceed what the cipher can seal at once.
    PayloadTooLarge,
}

/// A sealed vault.
pub struct VaultEnvelope {
    pub name: String,
    pub salt: [u8; 32],
    pub nonce: [u8; 12],
    pub ciphertext: Vec<u8>,
}

/// The byte that separates the fields of the persisted text.
pub const SEPARATOR: u8 = 0x3a;

/// The persisted text of an envelope's four parts.
pub open spec fn envelope_text(name: Seq<char>, salt: Seq<u8>, nonce: Seq<u8>, ciphertext: Seq<u8>) -> Seq<u8> {
    base64_text(encode_utf8(name)) + seq![SEPARATOR] + base64_text(salt) + seq![SEPARATOR]
        + base64_text(nonce) + seq![SEPARATOR] + base64_text(ciphertext)
}

/// No byte of `s` is the separator.
pub open spec fn separator_free(s: Seq<u8>) -> bool {
    forall|i: int| 0 <= i < s.len() ==> s[i] != SEPARATOR
}

/// Each of the four fields of the text is free of the separator.
pub open spec fn fields_separable(name: Seq<char>, salt: Seq<u8>, nonce: Seq<u8>, ciphertext: Seq<u8>) -> bool {
    separator_free(base64_text(encode_utf8(name))) && separator_free(base64_text(salt))
        && separator_free(base64_text(nonce)) && separator_free(base64_text(ciphertext))
}

/// `text` is a persisted vault of name `name`, salt `salt` and credentials
/// `cs`, sealed with nonce `nonce` under `key`.
pub open spec fn sealed_text(
    text: Seq<u8>,
    name: Seq<char>,
    salt: Seq<u8>,
    nonce: Seq<u8>,
    key: Seq<u8>,
    cs: Seq<CredentialView>,
) -> bool {
    let ct = siv_seal(key, nonce, payload_bytes(name, cs));
    &&& salt.len() == 32
    &&& nonce.len() == 12
    &&& ids_distinct(cs)
    &&& payload_bytes(name, cs).len() <= PLAINTEXT_MAX
    &&& fields_separable(name, salt, nonce, ct)
    &&& text == envelope_text(name, salt, nonce, ct)
}

proof fn lemma_credentials_bytes_len(cs: Seq<CredentialView>)
    ensures
        credentials_bytes(cs).len() >= cs.len(),
        forall|i: int| 0 <= i < cs.len() ==> credential_bytes(#[trigger] cs[i]).len() <= credentials_bytes(cs).len(),
    decreases cs.len(),
{
    if cs.len() > 0 {
        lemma_credentials_bytes_len(cs.drop_first());
        reveal(credential_bytes);
        assert forall|i: int| 0 <= i < cs.len() implies credential_bytes(#[trigger] cs[i]).len()
            <= credentials_bytes(cs).len() by {
            if i > 0 {
                assert(cs[i] == cs.drop_first()[i - 1]);
            }
        }
    }
}

/// A payload short enough to seal records every length in its eight bytes.
proof fn lemma_sealable_fits(name: Seq<char>, cs: Seq<CredentialView>)
    requires
        payload_bytes(name, cs).len() <= PLAINTEXT_MAX,
    ensures
        payload_fits(name, cs),
{
    lemma_credentials_bytes_len(cs);
    reveal(credential_bytes);
    assert forall|i: int| 0 <= i < cs.len() implies credential_fits(#[trigger] cs[i]) by {
        assert(credential_bytes(cs[i]).len() <= credentials_bytes(cs).len());
    }
}

/// Copies exactly `N` bytes into an array.
fn to_array<const N: usize>(v: &[u8]) -> (r: [u8; N])
    requires
        v@.len() == N,
    ensures
        r@ == v@,
{
    let mut r = [0u8; N];
    let mut i: usize = 0;
    while i < N
        invariant
            0 <= i <= N,
            v@.len() == N,
            r@.len() == N,
            forall|k: int| 0 <= k < i ==> r@[k] == v@[k],
        decreases N - i,
    {
        r[i] = v[i];
        i = i + 1;
    }
    assert(r@ =~= v@);
    r
}

/// Whether the credentials' identifiers are pairwise distinct.
fn all_ids_distinct(cs: &[Credential]) -> (r: bool)
    ensures
        r == ids_distinct(views(cs@)),
{
    let mut i: usize = 0;
    while i < cs.len()
        invariant
            0 <= i <= cs@.len(),
            forall|a: int, b: int|
                0 <= a < i && 0 <= b < cs@.len() && a != b ==> #[trigger] views(cs@)[a].id
                    != #[trigger] views(cs@)[b].id,
        decreases cs@.len() - i,
    {
        let mut j: usize = 0;
        while j < cs.len()
            invariant
                0 <= i < cs@.len(),
                0 <= j <= cs@.len(),
                forall|a: int, b: int|
                0 <= a < i && 0 <= b < cs@.len() && a != b ==> #[trigger] views(cs@)[a].id
                    != #[trigger] views(cs@)[b].id,
                forall|b: int| 0 <= b < j && b != i ==> views(cs@)[i as int].id != #[trigger] views(cs@)[b].id,
            decreases cs@.len() - j,
        {
            if j != i && *cs[i].get_id() == *cs[j].get_id() {
                assert(views(cs@)[i as int].id == views(cs@)[j as int].id);
                return false;
            }
            j = j + 1;
        }
        i = i + 1;
    }
    true
}

/// Seals a vault: its name and credentials, encoded, are encrypted under its
/// key with a fresh random nonce; salt and name travel in the clear.
pub fn seal_vault(vault: &Vault) -> (r: Result<VaultEnvelope, VaultError>)
    requires
        vault.wf(),
    ensures
        r is Ok <==> payload_bytes(vault@.name, vault@.credentials).len() <= PLAINTEXT_MAX,
        r is Err ==> r == Err::<VaultEnvelope, VaultError>(VaultError::PayloadTooLarge),
        r matches Ok(e) ==> e.name@ == vault@.name && e.salt@ == vault@.salt && e.ciphertext@
            == siv_seal(vault@.key, e.nonce@, payload_bytes(vault@.name, vault@.credentials)),
{
    let payload = encode_payload(vault.get_vault_name(), vault.get_credentials());
    if payload.len() as u64 > PLAINTEXT_MAX {
        return Err(VaultError::PayloadTooLarge);
    }
    let nonce = random_nonce();
    let ciphertext = siv_encrypt(vault.get_vault_key(), &nonce, payload.as_slice());
    Ok(VaultEnvelope {
        name: vault.get_vault_name().to_owned(),
        salt: *vault.get_salt(),
        nonce,
        ciphertext,
    })
}

/// Opens an envelope with `key`: the payload is decrypted and read back into
/// a vault that carries the envelope's salt and the given key.
pub fn open_vault(envelope: &VaultEnvelope, key: &[u8; 32]) -> (r: Result<Vault, VaultError>)
    ensures
        r matches Ok(v) ==> v.wf() && v@.salt == envelope.salt@ && v@.key == key@,
        r matches Ok(v) ==> exists|p: Seq<u8>|
            envelope.ciphertext@ == #[trigger] siv_seal(key@, envelope.nonce@, p) && parse_payload(p)
                == Some((v@.name, v@.credentials)),
        r matches Err(e) ==> e == VaultError::AuthenticationFailure || e == VaultError::MalformedVault,
        r == Err::<Vault, VaultError>(VaultError::AuthenticationFailure) ==> forall|p: Seq<u8>|
            p.len() <= PLAINTEXT_MAX ==> envelope.ciphertext@ != #[trigger] siv_seal(key@, envelope.nonce@, p),
        forall|name: Seq<char>, cs: Seq<CredentialView>|
            ids_distinct(cs) && payload_bytes(name, cs).len() <= PLAINTEXT_MAX && envelope.ciphertext@
                == #[trigger] siv_seal(key@, envelope.nonce@, payload_bytes(name, cs)) ==> (r matches Ok(v)
                && v@ == (VaultView { name, salt: envelope.salt@, key: key@, credentials: cs })),
{
    let plaintext = match siv_decrypt(key, &envelope.nonce, envelope.ciphertext.as_slice()) {
        None => return Err(VaultError::AuthenticationFailure),
        Some(p) => p,
    };
    proof {
        assert forall|name: Seq<char>, cs: Seq<CredentialView>|
            ids_distinct(cs) && payload_bytes(name, cs).len() <= PLAINTEXT_MAX && envelope.ciphertext@
                == #[trigger] siv_seal(key@, envelope.nonce@, payload_bytes(name, cs)) implies plaintext@
            == payload_bytes(name, cs) && parse_payload(plaintext@) == Some((name, cs)) by {
            lemma_sealable_fits(name, cs);
            lemma_payload_round_trip(name, cs);
        }
    }
    let (name, credentials) = match decode_payload(plaintext.as_slice()) {
        None => return Err(VaultError::MalformedVault),
        Some(x) => x,
    };
    if !all_ids_distinct(credentials.as_slice()) {
        return Err(VaultError::MalformedVault);
    }
    Ok(Vault::from_parts(name, envelope.salt, *key, credentials))
}

/// The key that a password and a salt give.
pub fn derive_key(password: &str, salt: &[u8; 32]) -> (r: [u8; 32])
    requires
        password_ok(encode_utf8(password@)),
    ensures
        r@ == argon2_key(encode_utf8(password@), salt@),
{
    argon2_derive(password.as_bytes(), salt)
}

fn push_all(out: &mut Vec<u8>, b: &[u8])
    ensures
        final(out)@ == old(out)@ + b@,
{
    let mut i: usize = 0;
    while i < b.len()
        invariant
            0 <= i <= b@.len(),
            out@ == old(out)@ + b@.take(i as int),
        decreases b@.len() - i,
    {
        out.push(b[i]);
        assert(b@.take(i + 1) =~= b@.take(i as int).push(b@[i as int]));
        i = i + 1;
    }
    assert(b@.take(i as int) =~= b@);
}

/// The base64 field of `b`, with the fact that it holds no separator.
fn base64_field(b: &[u8]) -> (r: Vec<u8>)
    ensures
        r@ == base64_text(b@),
        separator_free(base64_text(b@)),
{
    let r = base64_encode(b);
    assert forall|i: int| 0 <= i < r@.len() implies r@[i] != SEPARATOR by {
        assert(is_base64_symbol(r@[i]));
    }
    r
}

/// The persisted text of an envelope.
pub fn encode_envelope(envelope: &VaultEnvelope) -> (r: Vec<u8>)
    ensures
        r@ == envelope_text(envelope.name@, envelope.salt@, envelope.nonce@, envelope.ciphertext@),
        fields_separable(envelope.name@, envelope.salt@, envelope.nonce@, envelope.ciphertext@),
{
    let name = base64_field(envelope.name.as_str().as_bytes());
    let salt = base64_field(envelope.salt.as_slice());
    let nonce = base64_field(envelope.nonce.as_slice());
    let ciphertext = base64_field(envelope.ciphertext.as_slice());
    let mut out: Vec<u8> = Vec::new();
    push_all(&mut out, name.as_slice());
    out.push(SEPARATOR);
    push_all(&mut out, salt.as_slice());
    out.push(SEPARATOR);
    push_all(&mut out, nonce.as_slice());
    out.push(SEPARATOR);
    push_all(&mut out, ciphertext.as_slice());
    assert(out@ =~= envelope_text(
        envelope.name@,
        envelope.salt@,
        envelope.nonce@,
        envelope.ciphertext@,
    ));
    out
}

/// The first separator at or after `from`, if any.
fn find_separator(t: &[u8], from: usize) -> (r: Option<usize>)
    requires
        from <= t@.len(),
    ensures
        r matches Some(k) ==> from <= k < t@.len() && t@[k as int] == SEPARATOR,
        r matches Some(k) ==> forall|j: int| from <= j < k ==> t@[j] != SEPARATOR,
        r is None ==> forall|j: int| from <= j < t@.len() ==> t@[j] != SEPARATOR,
{
    let mut i: usize = from;
    while i < t.len()
        invariant
            from <= i <= t@.len(),
            forall|j: int| from <= j < i ==> t@[j] != SEPARATOR,
        decreases t@.len() - i,
    {
        if t[i] == SEPARATOR {
            return Some(i);
        }
        i = i + 1;
    }
    None
}

/// The bytes of `t` from `lo` up to `hi`.
fn copy_range(t: &[u8], lo: usize, hi: usize) -> (r: Vec<u8>)
    requires
        lo <= hi <= t@.len(),
    ensures
        r@ == t@.subrange(lo as int, hi as int),
{
    let mut r: Vec<u8> = Vec::new();
    let mut i: usize = lo;
    while i < hi
        invariant
            lo <= i <= hi <= t@.len(),
            r@ == t@.subrange(lo as int, i as int),
        decreases hi - i,
    {
        r.push(t[i]);
        assert(t@.subrange(lo as int, i + 1) =~= t@.subrange(lo as int, i as int).push(t@[i as int]));
        i = i + 1;
    }
    r
}

proof fn lemma_split(t: Seq<u8>, off: int, x: Seq<u8>, y: Seq<u8>)
    requires
        0 <= off <= t.len(),
        t.subrange(off, t.len() as int) == x + seq![SEPARATOR] + y,
        separator_free(x),
    ensures
        off + x.len() < t.len(),
        t[off + x.len()] == SEPARATOR,
        forall|j: int| off <= j < off + x.len() ==> t[j] != SEPARATOR,
        t.subrange(off, off + x.len()) == x,
        t.subrange(off + x.len() + 1, t.len() as int) == y,
{
    let s = t.subrange(off, t.len() as int);
    let w = x + seq![SEPARATOR] + y;
    assert(s.len() == x.len() + 1 + y.len());
    assert(w[x.len() as int] == SEPARATOR);
    assert(t[off + x.len()] == s[x.len() as int]);
    assert forall|j: int| off <= j < off + x.len() implies t[j] != SEPARATOR by {
        assert(t[j] == s[j - off]);
        assert(w[j - off] == x[j - off]);
    }
    assert forall|j: int| 0 <= j < x.len() implies t.subrange(off, off + x.len())[j] == x[j] by {
        assert(t[off + j] == s[j]);
        assert(w[j] == x[j]);
    }
    assert(t.subrange(off, off + x.len()) =~= x);
    assert forall|j: int| 0 <= j < y.len() implies t.subrange(off + x.len() + 1, t.len() as int)[j] == y[j] by {
        assert(t[off + x.len() + 1 + j] == s[x.len() + 1 + j]);
        assert(w[x.len() + 1 + j] == y[j]);
    }
    assert(t.subrange(off + x.len() + 1, t.len() as int) =~= y);
}

/// Where the fields and separators of a persisted text stand.
pub open spec fn envelope_layout(t: Seq<u8>, a: Seq<u8>, b: Seq<u8>, c: Seq<u8>, d: Seq<u8>) -> bool {
    let p0 = a.len() as int;
    let p1 = p0 + 1 + b.len();
    let p2 = p1 + 1 + c.len();
    &&& p2 < t.len()
    &&& t[p0] == SEPARATOR && t[p1] == SEPARATOR && t[p2] == SEPARATOR
    &&& forall|j: int| 0 <= j < t.len() && j != p0 && j != p1 && j != p2 ==> #[trigger] t[j] != SEPARATOR
    &&& t.subrange(0, p0) == a
    &&& t.subrange(p0 + 1, p1) == b
    &&& t.subrange(p1 + 1, p2) == c
    &&& t.subrange(p2 + 1, t.len() as int) == d
}

proof fn lemma_envelope_layout(t: Seq<u8>, name: Seq<char>, salt: Seq<u8>, nonce: Seq<u8>, ct: Seq<u8>)
    requires
        fields_separable(name, salt, nonce, ct),
        t == envelope_text(name, salt, nonce, ct),
    ensures
        envelope_layout(t, base64_text(encode_utf8(name)), base64_text(salt), base64_text(nonce), base64_text(ct)),
{
    let a = base64_text(encode_utf8(name));
    let b = base64_text(salt);
    let c = base64_text(nonce);
    let d = base64_text(ct);
    let sep = seq![SEPARATOR];
    assert(t.subrange(0, t.len() as int) == a + sep + (b + sep + c + sep + d)) by {
        assert(t.subrange(0, t.len() as int) =~= a + sep + (b + sep + c + sep + d));
    }
    lemma_split(t, 0, a, b + sep + c + sep + d);
    let o1: int = a.len() as int + 1;
    assert(t.subrange(o1, t.len() as int) == b + sep + (c + sep + d)) by {
        assert(b + sep + c + sep + d =~= b + sep + (c + sep + d));
    }
    lemma_split(t, o1, b, c + sep + d);
    let o2: int = o1 + b.len() + 1;
    lemma_split(t, o2, c, d);
    let o3: int = o2 + c.len() + 1;
    assert forall|j: int| o3 <= j < t.len() implies t[j] != SEPARATOR by {
        assert(t[j] == t.subrange(o3, t.len() as int)[j - o3]);
    }
}

/// Reads a persisted text back into an envelope.
pub fn decode_envelope(text: &[u8]) -> (r: Result<VaultEnvelope, VaultError>)
    ensures
        r matches Err(e) ==> e == VaultError::MalformedEnvelope,
        forall|name: Seq<char>, salt: Seq<u8>, nonce: Seq<u8>, ct: Seq<u8>|
            salt.len() == 32 && nonce.len() == 12 && fields_separable(name, salt, nonce, ct) && text@
                == #[trigger] envelope_text(name, salt, nonce, ct) ==> (r matches Ok(e) && e.name@
                == name && e.salt@ == salt && e.nonce@ == nonce && e.ciphertext@ == ct),
{
    let ghost t = text@;
    let n = text.len();
    proof {
        assert forall|name: Seq<char>, salt: Seq<u8>, nonce: Seq<u8>, ct: Seq<u8>|
            fields_separable(name, salt, nonce, ct) && t == #[trigger] envelope_text(name, salt, nonce, ct)
            implies envelope_layout(
            t,
            base64_text(encode_utf8(name)),
            base64_text(salt),
            base64_text(nonce),
            base64_text(ct),
        ) by {
            lemma_envelope_layout(t, name, salt, nonce, ct);
        }
    }
    let s0 = match find_separator(text, 0) {
        None => return Err(VaultError::MalformedEnvelope),
        Some(k) => k,
    };
    let s1 = match find_separator(text, s0 + 1) {
        None => return Err(VaultError::MalformedEnvelope),
        Some(k) => k,
    };
    let s2 = match find_separator(text, s1 + 1) {
        None => return Err(VaultError::MalformedEnvelope),
        Some(k) => k,
    };
    if find_separator(text, s2 + 1).is_some() {
        return Err(VaultError::MalformedEnvelope);
    }
    let name_field = copy_range(text, 0, s0);
    let salt_field = copy_range(text, s0 + 1, s1);
    let nonce_field = copy_range(text, s1 + 1, s2);
    let ct_field = copy_range(text, s2 + 1, n);
    let name_bytes = match base64_decode(name_field.as_slice()) {
        None => return Err(VaultError::MalformedEnvelope),
        Some(v) => v,
    };
    let salt_bytes = match base64_decode(salt_field.as_slice()) {
        None => return Err(VaultError::MalformedEnvelope),
        Some(v) => v,
    };
    let nonce_bytes = match base64_decode(nonce_field.as_slice()) {
        None => return Err(VaultError::MalformedEnvelope),
        Some(v) => v,
    };
    let ciphertext = match base64_decode(ct_field.as_slice()) {
        None => return Err(VaultError::MalformedEnvelope),
        Some(v) => v,
    };
    if salt_bytes.len() != 32 || nonce_bytes.len() != 12 {
        return Err(VaultError::MalformedEnvelope);
    }
    let ghost nb = name_bytes@;
    proof {
        assert forall|name: Seq<char>, salt: Seq<u8>, nonce: Seq<u8>, ct: Seq<u8>|
            salt.len() == 32 && nonce.len() == 12 && fields_separable(name, salt, nonce, ct) && t
                == #[trigger] envelope_text(name, salt, nonce, ct) implies nb == encode_utf8(name)
            && vstd::utf8::valid_utf8(nb) && vstd::utf8::decode_utf8(nb) == name by {
            vstd::utf8::encode_utf8_valid_utf8(name);
            vstd::utf8::encode_utf8_decode_utf8(name);
        }
    }
    let name = match string_from_utf8(name_bytes) {
        None => return Err(VaultError::MalformedEnvelope),
        Some(s) => s,
    };
    let salt: [u8; 32] = to_array(salt_bytes.as_slice());
    let nonce: [u8; 12] = to_array(nonce_bytes.as_slice());
    Ok(VaultEnvelope { name, salt, nonce, ciphertext })
}

/// Seals a vault and writes its persisted text.
pub fn encrypt_vault(vault: &Vault) -> (r: Result<Vec<u8>, VaultError>)
    requires
        vault.wf(),
    ensures
        r is Ok <==> payload_bytes(vault@.name, vault@.credentials).len() <= PLAINTEXT_MAX,
        r is Err ==> r == Err::<Vec<u8>, VaultError>(VaultError::PayloadTooLarge),
        r matches Ok(t) ==> exists|nonce: Seq<u8>|
            #[trigger] sealed_text(t@, vault@.name, vault@.salt, nonce, vault@.key, vault@.credentials),
{
    let envelope = match seal_vault(vault) {
        Err(e) => return Err(e),
        Ok(e) => e,
    };
    let text = encode_envelope(&envelope);
    assert(sealed_text(text@, vault@.name, vault@.salt, envelope.nonce@, vault@.key, vault@.credentials));
    let r = Ok(text);
    assert(r matches Ok(t) && t@ == text@);
    r
}

/// Opens a persisted text with a password: the key is derived from the
/// password and the salt that the text carries.
pub fn decrypt_vault(text: &[u8], password: &str) -> (r: Result<Vault, VaultError>)
    requires
        password_ok(encode_utf8(password@)),
    ensures
        r matches Ok(v) ==> v.wf() && v@.key == argon2_key(encode_utf8(password@), v@.salt),
        r matches Err(e) ==> e != VaultError::PayloadTooLarge,
        forall|name: Seq<char>, salt: Seq<u8>, nonce: Seq<u8>, cs: Seq<CredentialView>|
            #[trigger] sealed_text(text@, name, salt, nonce, argon2_key(encode_utf8(password@), salt), cs)
                ==> (r matches Ok(v) && v@ == (VaultView {
                name,
                salt,
                key: argon2_key(encode_utf8(password@), salt),
                credentials: cs,
            })),
{
    let envelope = match decode_envelope(text) {
        Err(e) => return Err(e),
        Ok(e) => e,
    };
    let key = derive_key(password, &envelope.salt);
    open_vault(&envelope, &key)
}

} // verus!
