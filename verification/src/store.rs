use vstd::prelude::*;
use keyring_core::Error as StoreError;
use crate::secret::{KeyringAnswer, KeyringFailure};

verus! {

#[verifier::external_type_specification]
#[verifier::external_body]
pub struct ExKeyringEntry(keyring::Entry);

#[verifier::external_type_specification]
#[verifier::external_body]
pub struct ExKeyringError(keyring_core::Error);

/// An entry of the platform credential store, with the service and user it
/// was opened for.
pub struct StoreEntry {
    entry: keyring::Entry,
    request: Ghost<(Seq<char>, Seq<char>)>,
}

impl StoreEntry {
    /// The service and user that the entry was opened for.
    pub closed spec fn request(self) -> (Seq<char>, Seq<char>) {
        self.request@
    }
}

/// What the credential store answered to one lookup, with the service and
/// user that the lookup asked for. Only this module makes one, by asking
/// the store.
pub struct StoreLookup {
    answer: KeyringAnswer,
    request: Ghost<(Seq<char>, Seq<char>)>,
}

impl StoreLookup {
    /// The service and user that the lookup asked the store for.
    pub closed spec fn request(self) -> (Seq<char>, Seq<char>) {
        self.request@
    }

    /// What the store answered.
    pub closed spec fn reply(self) -> KeyringAnswer {
        self.answer
    }

    /// The store's answer.
    pub fn into_answer(self) -> (a: KeyringAnswer)
        ensures
            a == self.reply(),
    {
        self.answer
    }
}

/// Opens the entry of the platform credential store for `service` and
/// `user` (`keyring::Entry::new`). Whether the store can be opened depends
/// on the machine, so only this is stated: an entry that is opened is the
/// one for `service` and `user`.
#[verifier::external_body]
fn keyring_entry(service: &str, user: &str) -> (r: Result<StoreEntry, StoreError>)
    ensures
        r matches Ok(e) ==> e.request() == (service@, user@),
{
    match keyring::Entry::new(service, user) {
        Ok(entry) => Ok(StoreEntry { entry, request: Ghost((service@, user@)) }),
        Err(err) => Err(err),
    }
}

/// Reads the password of a credential store entry
/// (`keyring::Entry::get_password`). What the store holds is not known
/// here, so nothing is stated of the outcome.
#[verifier::external_body]
fn keyring_password(entry: &StoreEntry) -> Result<String, StoreError> {
    entry.entry.get_password()
}

/// The text of a credential store error (its `Display` form). Nothing is
/// stated of it: the error is opaque here.
#[verifier::external_body]
fn keyring_error_text(err: &StoreError) -> String {
    err.to_string()
}

/// The variant of a credential store error, with the fields that messages
/// use; an error of a variant not listed here comes back unchanged. Nothing
/// is stated of it: the error is opaque here.
#[verifier::external_body]
fn keyring_failure(err: StoreError) -> Result<KeyringFailure, StoreError> {
    match err {
        StoreError::PlatformFailure(_) => Ok(KeyringFailure::PlatformFailure),
        StoreError::NoStorageAccess(_) => Ok(KeyringFailure::NoStorageAccess),
        StoreError::NoEntry => Ok(KeyringFailure::NoEntry),
        StoreError::BadEncoding(_) => Ok(KeyringFailure::BadEncoding),
        StoreError::BadDataFormat(_, _) => Ok(KeyringFailure::BadDataFormat),
        StoreError::BadStoreFormat(reason) => Ok(KeyringFailure::BadStoreFormat(reason)),
        StoreError::TooLong(name, limit) => Ok(KeyringFailure::TooLong(name, limit)),
        StoreError::Invalid(name, reason) => Ok(KeyringFailure::Invalid(name, reason)),
        StoreError::Ambiguous(_) => Ok(KeyringFailure::Ambiguous),
        StoreError::NoDefaultStore => Ok(KeyringFailure::NoDefaultStore),
        StoreError::NotSupportedByStore(reason) => Ok(KeyringFailure::NotSupportedByStore(reason)),
        other => Err(other),
    }
}

/// Asks the platform credential store for the secret under `service` and
/// `user`: the lookup asks for exactly those two, whatever the store answers.
pub(crate) fn ask_keyring(service: &str, user: &str) -> (r: StoreLookup)
    ensures
        r.request() == (service@, user@),
{
    match keyring_entry(service, user) {
        Err(err) => StoreLookup {
            answer: KeyringAnswer::EntryFailed(keyring_error_text(&err)),
            request: Ghost((service@, user@)),
        },
        Ok(entry) => {
            let answer = match keyring_password(&entry) {
                Ok(secret) => KeyringAnswer::Found(secret),
                Err(err) => match keyring_failure(err) {
                    Ok(failure) => KeyringAnswer::LookupFailed(failure),
                    Err(other) => KeyringAnswer::LookupFailed(
                        KeyringFailure::Other(keyring_error_text(&other)),
                    ),
                },
            };
            StoreLookup { answer, request: Ghost(entry.request()) }
        },
    }
}

} // verus!
