//! The vault: a named, keyed collection of credentials with distinct
//! identifiers.
use vstd::prelude::*;
use vstd::utf8::encode_utf8;
use vstd::set_lib::{lemma_int_range, lemma_len_subset, set_int_range};
use crate::credential::{views, Credential, CredentialView};
use crate::primitives::{
    argon2_derive, argon2_key, occurs_in, random_salt, random_u64, str_contains, PASSWORD_MAX,
};

verus! {

/// What a vault holds, as mathematical values.
pub struct VaultView {
    pub name: Seq<char>,
    pub salt: Seq<u8>,
    pub key: Seq<u8>,
    pub credentials: Seq<CredentialView>,
}

/// No two credentials share an identifier.
pub open spec fn ids_distinct(cs: Seq<CredentialView>) -> bool {
    forall|i: int, j: int|
        0 <= i < cs.len() && 0 <= j < cs.len() && i != j ==> #[trigger] cs[i].id
            != #[trigger] cs[j].id
}

/// Some credential carries `id`.
pub open spec fn has_id(cs: Seq<CredentialView>, id: u64) -> bool {
    exists|i: int| 0 <= i < cs.len() && #[trigger] cs[i].id == id
}

/// A credential is found by `query` when the query occurs in its service,
/// its username or its notes.
pub open spec fn matches_query(c: CredentialView, query: Seq<char>) -> bool {
    occurs_in(query, c.service) || occurs_in(query, c.username) || occurs_in(query, c.notes)
}

/// The credentials that `query` finds, in their order.
pub open spec fn search_result(cs: Seq<CredentialView>, query: Seq<char>) -> Seq<CredentialView> {
    cs.filter(|c: CredentialView| matches_query(c, query))
}

/// The views behind a sequence of references, in order.
pub open spec fn ref_views(rs: Seq<&Credential>) -> Seq<CredentialView> {
    rs.map_values(|c: &Credential| c@)
}

/// A password that the key derivation accepts.
pub open spec fn password_ok(password: Seq<u8>) -> bool {
    password.len() <= PASSWORD_MAX
}

/// A named set of credentials, with the salt it was created with and the key
/// derived from its current password and that salt.
pub struct Vault {
    vault_name: String,
    salt: [u8; 32],
    vault_key: [u8; 32],
    credentials: Vec<Credential>,
}

impl View for Vault {
    type V = VaultView;

    closed spec fn view(&self) -> VaultView {
        VaultView {
            name: self.vault_name@,
            salt: self.salt@,
            key: self.vault_key@,
            credentials: self.credentials@.map_values(|c: Credential| c@),
        }
    }
}

/// How many random identifiers are drawn before the least free one is taken.
pub const ID_DRAWS: u64 = 0xffff_ffff_ffff_ffff;

/// Among `n` identifiers, fewer than `c + 1` can cover every value up to `c`.
proof fn lemma_free_id_below(cs: Seq<CredentialView>, c: u64)
    requires
        forall|k: u64| k <= c ==> has_id(cs, k),
    ensures
        c + 1 <= cs.len(),
{
    let ids = cs.map_values(|x: CredentialView| x.id as int);
    let s = ids.to_set();
    let range = set_int_range(0, c + 1);
    assert forall|k: int| range.contains(k) implies s.contains(k) by {
        let ku = k as u64;
        assert(has_id(cs, ku));
        let j = choose|j: int| 0 <= j < cs.len() && #[trigger] cs[j].id == ku;
        assert(ids[j] == k);
        assert(ids.contains(k));
    }
    ids.lemma_cardinality_of_set();
    lemma_int_range(0, c + 1);
    vstd::seq_lib::seq_to_set_is_finite(ids);
    lemma_len_subset(range, s);
}

impl Vault {
    /// The vault is well formed: its credentials' identifiers are distinct
    /// and its salt and key have their fixed sizes.
    pub open spec fn wf(&self) -> bool {
        ids_distinct(self@.credentials) && self@.salt.len() == 32 && self@.key.len() == 32
    }

    /// Creates an empty vault with a fresh random salt and the key derived
    /// from `password` and that salt.
    pub fn new(vault_name: &str, password: &str) -> (r: Self)
        requires
            password_ok(encode_utf8(password@)),
        ensures
            r.wf(),
            r@.name == vault_name@,
            r@.credentials.len() == 0,
            r@.key == argon2_key(encode_utf8(password@), r@.salt),
    {
        let salt = random_salt();
        let vault_key = argon2_derive(password.as_bytes(), &salt);
        let r = Vault {
            vault_name: vault_name.to_owned(),
            salt,
            vault_key,
            credentials: Vec::new(),
        };
        r
    }

    /// Puts a vault together from decoded parts.
    pub(crate) fn from_parts(
        vault_name: String,
        salt: [u8; 32],
        vault_key: [u8; 32],
        credentials: Vec<Credential>,
    ) -> (r: Self)
        requires
            ids_distinct(views(credentials@)),
        ensures
            r.wf(),
            r@ == (VaultView {
                name: vault_name@,
                salt: salt@,
                key: vault_key@,
                credentials: views(credentials@),
            }),
    {
        Vault { vault_name, salt, vault_key, credentials }
    }

    /// The name of the vault.
    pub fn get_vault_name(&self) -> (r: &str)
        ensures
            r@ == self@.name,
    {
        self.vault_name.as_str()
    }

    /// The salt that the key is derived with.
    pub fn get_salt(&self) -> (r: &[u8; 32])
        ensures
            r@ == self@.salt,
    {
        &self.salt
    }

    /// The key derived from the current password and the salt.
    pub fn get_vault_key(&self) -> (r: &[u8; 32])
        ensures
            r@ == self@.key,
    {
        &self.vault_key
    }

    /// The credentials, in the order they were added.
    pub fn get_credentials(&self) -> (r: &[Credential])
        ensures
            views(r@) == self@.credentials,
    {
        self.credentials.as_slice()
    }

    /// Renames the vault.
    pub fn set_vault_name(&mut self, vault_name: String)
        requires
            old(self).wf(),
        ensures
            final(self).wf(),
            final(self)@ == (VaultView { name: vault_name@, ..old(self)@ }),
    {
        self.vault_name = vault_name;
    }

    /// Derives the key anew from `password` and the vault's own salt; the
    /// salt and the credentials stay as they are.
    pub fn set_vault_password(&mut self, password: &[u8])
        requires
            old(self).wf(),
            password_ok(password@),
        ensures
            final(self).wf(),
            final(self)@ == (VaultView { key: argon2_key(password@, old(self)@.salt), ..old(self)@ }),
    {
        self.vault_key = argon2_derive(password, &self.salt);
    }

    /// Whether some credential carries `id`.
    fn contains_id(&self, id: u64) -> (r: bool)
        ensures
            r == has_id(self@.credentials, id),
    {
        let mut i: usize = 0;
        while i < self.credentials.len()
            invariant
                0 <= i <= self.credentials@.len(),
                forall|k: int| 0 <= k < i ==> (#[trigger] self@.credentials[k]).id != id,
            decreases self.credentials@.len() - i,
        {
            if *self.credentials[i].get_id() == id {
                assert(self@.credentials[i as int].id == id);
                return true;
            }
            i = i + 1;
        }
        false
    }

    /// The least identifier that no credential carries.
    fn least_free_id(&self) -> (r: u64)
        ensures
            !has_id(self@.credentials, r),
    {
        let mut c: u64 = 0;
        while self.contains_id(c)
            invariant
                forall|k: u64| k < c ==> has_id(self@.credentials, k),
                c <= self@.credentials.len(),
            decreases self@.credentials.len() - c,
        {
            let n = self.credentials.len();
            proof {
                lemma_free_id_below(self@.credentials, c);
                assert(c + 1 <= n);
            }
            c = c + 1;
        }
        c
    }

    /// Adds a credential under a fresh identifier, drawn at random and drawn
    /// again while it is taken, and returns that identifier.
    pub fn add_credential(
        &mut self,
        username: String,
        password: String,
        service: String,
        notes: String,
    ) -> (id: u64)
        requires
            old(self).wf(),
        ensures
            final(self).wf(),
            !has_id(old(self)@.credentials, id),
            final(self)@ == (VaultView {
                credentials: old(self)@.credentials.push(
                    CredentialView {
                        id,
                        username: username@,
                        password: password@,
                        service: service@,
                        notes: notes@,
                    },
                ),
                ..old(self)@
            }),
    {
        let mut id = random_u64();
        let mut draws: u64 = 1;
        let mut taken = self.contains_id(id);
        while taken && draws < ID_DRAWS
            invariant
                taken == has_id(self@.credentials, id),
                self@ == old(self)@,
            decreases ID_DRAWS - draws,
        {
            id = random_u64();
            draws = draws + 1;
            taken = self.contains_id(id);
        }
        if taken {
            id = self.least_free_id();
        }
        let ghost before = self@.credentials;
        self.credentials.push(Credential::new(id, username, password, service, notes));
        assert(self@.credentials =~= before.push(
            CredentialView {
                id,
                username: username@,
                password: password@,
                service: service@,
                notes: notes@,
            },
        ));
        id
    }

    /// The credentials whose service, username or notes contain
    /// `search_string`, in their order; all of them for an empty string.
    pub fn search_credential_by_str(&self, search_string: String) -> (r: Vec<&Credential>)
        ensures
            ref_views(r@) == search_result(self@.credentials, search_string@),
    {
        let mut r: Vec<&Credential> = Vec::new();
        let mut i: usize = 0;
        while i < self.credentials.len()
            invariant
                0 <= i <= self.credentials@.len(),
                ref_views(r@) == search_result(self@.credentials.take(i as int), search_string@),
            decreases self.credentials@.len() - i,
        {
            let c = &self.credentials[i];
            let found = str_contains(c.get_service(), search_string.as_str()) || str_contains(
                c.get_username(),
                search_string.as_str(),
            ) || str_contains(c.get_notes(), search_string.as_str());
            let ghost before = r@;
            if found {
                r.push(c);
                assert(ref_views(r@) =~= ref_views(before).push(c@));
            }
            proof {
                let cs = self@.credentials;
                let pred = |x: CredentialView| matches_query(x, search_string@);
                assert(cs.take(i + 1).drop_last() =~= cs.take(i as int));
                assert(cs.take(i + 1).last() == c@);
                reveal(Seq::filter);
                assert(cs.take(i + 1).filter(pred) == if pred(c@) {
                    cs.take(i as int).filter(pred).push(c@)
                } else {
                    cs.take(i as int).filter(pred)
                });
            }
            i = i + 1;
        }
        assert(self@.credentials.take(i as int) =~= self@.credentials);
        r
    }

    /// Removes the credential that carries `id`, if there is one, and says
    /// whether there was.
    pub fn delete_credential_by_id(&mut self, id: u64) -> (r: bool)
        requires
            old(self).wf(),
        ensures
            final(self).wf(),
            r == has_id(old(self)@.credentials, id),
            !r ==> final(self)@ == old(self)@,
            r ==> exists|i: int|
                0 <= i < old(self)@.credentials.len() && (#[trigger] old(self)@.credentials[i]).id
                    == id && final(self)@ == (VaultView {
                    credentials: old(self)@.credentials.remove(i),
                    ..old(self)@
                }),
    {
        let mut i: usize = 0;
        while i < self.credentials.len()
            invariant
                0 <= i <= self.credentials@.len(),
                forall|k: int| 0 <= k < i ==> (#[trigger] self@.credentials[k]).id != id,
                self@ == old(self)@,
                self.wf(),
            decreases self.credentials@.len() - i,
        {
            if *self.credentials[i].get_id() == id {
                let ghost before = self@.credentials;
                self.credentials.remove(i);
                assert(self@.credentials =~= before.remove(i as int));
                assert(before[i as int].id == id);
                assert(ids_distinct(before));
                assert forall|a: int, b: int|
                    0 <= a < self@.credentials.len() && 0 <= b < self@.credentials.len() && a
                        != b implies #[trigger] self@.credentials[a].id
                    != #[trigger] self@.credentials[b].id by {
                    let a0 = if a < i { a } else { a + 1 };
                    let b0 = if b < i { b } else { b + 1 };
                    assert(self@.credentials[a] == before[a0]);
                    assert(self@.credentials[b] == before[b0]);
                    assert(before[a0].id != before[b0].id);
                }
                return true;
            }
            i = i + 1;
        }
        false
    }
}

} // verus!
