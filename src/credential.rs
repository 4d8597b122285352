//! One stored secret record.
use vstd::prelude::*;

verus! {

/// What a credential holds, as mathematical values.
pub struct CredentialView {
    pub id: u64,
    pub username: Seq<char>,
    pub password: Seq<char>,
    pub service: Seq<char>,
    pub notes: Seq<char>,
}

/// A username, password and service, with free-form notes, under an
/// identifier that its vault assigns.
pub struct Credential {
    id: u64,
    username: String,
    password: String,
    service: String,
    notes: String,
}

impl View for Credential {
    type V = CredentialView;

    closed spec fn view(&self) -> CredentialView {
        CredentialView {
            id: self.id,
            username: self.username@,
            password: self.password@,
            service: self.service@,
            notes: self.notes@,
        }
    }
}

impl Credential {
    /// Creates a credential from its identifier and its four text fields.
    pub fn new(id: u64, username: String, password: String, service: String, notes: String) -> (r:
        Self)
        ensures
            r@ == (CredentialView {
                id,
                username: username@,
                password: password@,
                service: service@,
                notes: notes@,
            }),
    {
        Credential { id, username, password, service, notes }
    }

    /// The identifier of the credential.
    pub fn get_id(&self) -> (r: &u64)
        ensures
            *r == self@.id,
    {
        &self.id
    }

    /// The username of the credential.
    pub fn get_username(&self) -> (r: &str)
        ensures
            r@ == self@.username,
    {
        self.username.as_str()
    }

    /// The password of the credential.
    pub fn get_password(&self) -> (r: &str)
        ensures
            r@ == self@.password,
    {
        self.password.as_str()
    }

    /// The service that the credential is for.
    pub fn get_service(&self) -> (r: &str)
        ensures
            r@ == self@.service,
    {
        self.service.as_str()
    }

    /// The notes of the credential; empty when there are none.
    pub fn get_notes(&self) -> (r: &str)
        ensures
            r@ == self@.notes,
    {
        self.notes.as_str()
    }

    /// Replaces the password, keeping every other field.
    pub fn set_password(&mut self, password: String)
        ensures
            final(self)@ == (CredentialView { password: password@, ..old(self)@ }),
    {
        self.password = password;
    }

    /// Replaces the notes, keeping every other field.
    pub fn set_notes(&mut self, notes: String)
        ensures
            final(self)@ == (CredentialView { notes: notes@, ..old(self)@ }),
    {
        self.notes = notes;
    }
}

} // verus!

verus! {

/// The views of a sequence of credentials, in order.
pub open spec fn views(cs: Seq<Credential>) -> Seq<CredentialView> {
    cs.map_values(|c: Credential| c@)
}

} // verus!
