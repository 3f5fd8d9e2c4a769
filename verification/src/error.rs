use vstd::prelude::*;

verus! {

/// Spec shape of an error.
pub enum ErrV {
    ScopeError,
    FieldMissing { field: Seq<char>, ty: Seq<char> },
    MoreThanOne { parent: u64, ty: Seq<char> },
    KeyNoValue { key: Seq<char>, value: Seq<char> },
    UnregisteredTag { tag: Seq<char> },
    EntityMissing { entity: u64 },
    ExpectedTagged,
    ExpectedList,
    ExpectedDict,
    StoreFull,
}

/// The terminal error of a save or load: the first failure aborts the whole
/// operation, there is no partial-success mode.
///
/// `ScopeError` is a protocol operation reaching for the scope while nothing
/// is bound; `FieldMissing` a required composite field absent on read;
/// `MoreThanOne` a uniqueness violation in a checked child read; `KeyNoValue`
/// a map-extractor child matching the key projection but not the value
/// projection; `UnregisteredTag` a decode-time miss in the type-tag registry.
/// The remaining variants wrap store-collaborator failures (an entity that
/// vanished, a spawn counter exhausted) and documents whose shape does not
/// match the projection.
#[derive(Debug, PartialEq, Eq)]
pub enum Error {
    ScopeError,
    FieldMissing { field: String, ty: String },
    MoreThanOne { parent: u64, ty: String },
    KeyNoValue { key: String, value: String },
    UnregisteredTag { tag: String },
    EntityMissing { entity: u64 },
    ExpectedTagged,
    ExpectedList,
    ExpectedDict,
    StoreFull,
}

impl Error {
    /// A structural copy; the derived `Clone` would say nothing to the
    /// verifier, so verified callers copy through this method instead.
    pub fn duplicate(&self) -> (r: Error)
        ensures
            r@ == self@,
    {
        match self {
            Error::ScopeError => Error::ScopeError,
            Error::FieldMissing { field, ty } => Error::FieldMissing {
                field: field.clone(),
                ty: ty.clone(),
            },
            Error::MoreThanOne { parent, ty } => Error::MoreThanOne {
                parent: *parent,
                ty: ty.clone(),
            },
            Error::KeyNoValue { key, value } => Error::KeyNoValue {
                key: key.clone(),
                value: value.clone(),
            },
            Error::UnregisteredTag { tag } => Error::UnregisteredTag { tag: tag.clone() },
            Error::EntityMissing { entity } => Error::EntityMissing { entity: *entity },
            Error::ExpectedTagged => Error::ExpectedTagged,
            Error::ExpectedList => Error::ExpectedList,
            Error::ExpectedDict => Error::ExpectedDict,
            Error::StoreFull => Error::StoreFull,
        }
    }
}

impl View for Error {
    type V = ErrV;

    open spec fn view(&self) -> ErrV {
        match *self {
            Error::ScopeError => ErrV::ScopeError,
            Error::FieldMissing { field, ty } => ErrV::FieldMissing {
                field: field@,
                ty: ty@,
            },
            Error::MoreThanOne { parent, ty } => ErrV::MoreThanOne { parent, ty: ty@ },
            Error::KeyNoValue { key, value } => ErrV::KeyNoValue { key: key@, value: value@ },
            Error::UnregisteredTag { tag } => ErrV::UnregisteredTag { tag: tag@ },
            Error::EntityMissing { entity } => ErrV::EntityMissing { entity },
            Error::ExpectedTagged => ErrV::ExpectedTagged,
            Error::ExpectedList => ErrV::ExpectedList,
            Error::ExpectedDict => ErrV::ExpectedDict,
            Error::StoreFull => ErrV::StoreFull,
        }
    }
}

} // verus!
