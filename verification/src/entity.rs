use vstd::prelude::*;

verus! {

/// Identified domain values: equality goes by identity, not by content.
pub trait Entity<T: PartialEq> {
    fn id(&self) -> T;

    fn eq(&self, other: &Self) -> bool;
}

/// The outside identifier type the engine's entities carry.
#[verifier::external_type_specification]
#[verifier::external_body]
pub struct ExUuid(uuid::Uuid);

/// Relies on uuid::Uuid::new_v4: a freshly drawn random identifier; nothing
/// can be promised of its value.
#[verifier::external_body]
fn uuid_new_v4() -> (r: uuid::Uuid) {
    uuid::Uuid::new_v4()
}

/// Relies on uuid::Uuid's Display: the canonical hyphenated form, which is
/// exactly 36 characters.
#[verifier::external_body]
fn uuid_to_string(u: &uuid::Uuid) -> (r: String)
    ensures
        r@.len() == 36,
{
    u.to_string()
}

/// Relies on uuid::Uuid::parse_str: returns a value only for well-formed
/// UUID text; the error is collapsed, callers only branch on it.
#[verifier::external_body]
fn uuid_parse_str(s: &str) -> (r: Result<uuid::Uuid, ()>) {
    match uuid::Uuid::parse_str(s) {
        Ok(u) => Ok(u),
        Err(_) => Err(()),
    }
}

/// An entity identifier, backed by a UUID.
#[derive(Debug)]
pub struct ID(uuid::Uuid);

impl ID {
    pub closed spec fn spec_inner(&self) -> uuid::Uuid {
        self.0
    }

    /// A fresh random identifier.
    pub fn new() -> Self {
        ID(uuid_new_v4())
    }

    pub fn from(uid: uuid::Uuid) -> (r: Self)
        ensures
            r.spec_inner() == uid,
    {
        ID(uid)
    }

    /// The canonical 36-character hyphenated text of the identifier.
    pub fn as_string(&self) -> (r: String)
        ensures
            r@.len() == 36,
    {
        uuid_to_string(&self.0)
    }

    pub fn inner(self) -> (r: uuid::Uuid)
        ensures
            r == self.spec_inner(),
    {
        self.0
    }

    pub fn inner_ref(&self) -> (r: &uuid::Uuid)
        ensures
            r == self.spec_inner(),
    {
        &self.0
    }
}

/// Why identifier text was rejected.
#[derive(Debug)]
pub enum InvalidIDError {
    Malformed(String),
}

impl core::str::FromStr for ID {
    type Err = InvalidIDError;

    /// Parses identifier text; malformed text comes back inside the error.
    fn from_str(s: &str) -> Result<ID, InvalidIDError> {
        match uuid_parse_str(s) {
            Result::Ok(u) => Result::Ok(ID(u)),
            Result::Err(_) => Result::Err(InvalidIDError::Malformed(s.to_string())),
        }
    }
}

} // verus!
