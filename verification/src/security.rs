//! Passwords and decryption of protected documents.

use vstd::prelude::*;

use crate::errors::{DecryptionError, IndexedReaderError};
use crate::object::{copy_range, BytesView, Dictionary, DictionaryView, Object, ObjectId, ObjectView};

verus! {

/// How the documents that a reader opens are protected.
///
/// What a handler answers depends on what it is asked alone.
pub trait SecurityHandler {
    /// The password rules that an encryption dictionary states.
    type Algorithm;

    /// What an authenticated document is decrypted with.
    type State;

    spec fn algorithm_of(dict: DictionaryView) -> Result<Self::Algorithm, DecryptionError>;

    spec fn revision_of(algorithm: Self::Algorithm) -> i64;

    spec fn user_outcome(algorithm: Self::Algorithm, file_id: Option<BytesView>, password: BytesView) -> Result<
        (),
        DecryptionError,
    >;

    spec fn owner_outcome(algorithm: Self::Algorithm, file_id: Option<BytesView>, password: BytesView) -> Result<
        (),
        DecryptionError,
    >;

    spec fn recovery_outcome(algorithm: Self::Algorithm, file_id: Option<BytesView>, password: BytesView) -> Result<
        BytesView,
        DecryptionError,
    >;

    spec fn state_of(dict: DictionaryView, file_id: Option<BytesView>, password: BytesView) -> Result<
        Self::State,
        DecryptionError,
    >;

    spec fn decrypted(state: Self::State, id: ObjectId, object: ObjectView) -> Result<ObjectView, DecryptionError>;

    /// Reads the password rules out of an encryption dictionary.
    fn algorithm(dict: &Dictionary) -> (r: Result<Self::Algorithm, DecryptionError>)
        ensures
            r == Self::algorithm_of(dict@),
    ;

    /// The revision of the password rules.
    fn revision(algorithm: &Self::Algorithm) -> (r: i64)
        ensures
            r == Self::revision_of(*algorithm),
    ;

    /// Tries a password as the user's.
    fn authenticate_user(algorithm: &Self::Algorithm, file_id: Option<&[u8]>, password: &[u8]) -> (r: Result<
        (),
        DecryptionError,
    >)
        ensures
            r == Self::user_outcome(*algorithm, id_view(file_id), password@),
    ;

    /// Tries a password as the owner's.
    fn authenticate_owner(algorithm: &Self::Algorithm, file_id: Option<&[u8]>, password: &[u8]) -> (r: Result<
        (),
        DecryptionError,
    >)
        ensures
            r == Self::owner_outcome(*algorithm, id_view(file_id), password@),
    ;

    /// Finds the user's password out from the owner's.
    fn recover_user(algorithm: &Self::Algorithm, file_id: Option<&[u8]>, password: &[u8]) -> (r: Result<
        Vec<u8>,
        DecryptionError,
    >)
        ensures
            password_result(r) == Self::recovery_outcome(*algorithm, id_view(file_id), password@),
    ;

    /// Prepares decryption with an authenticated password.
    fn state(dict: &Dictionary, file_id: Option<&[u8]>, password: &[u8]) -> (r: Result<Self::State, DecryptionError>)
        ensures
            r == Self::state_of(dict@, id_view(file_id), password@),
    ;

    /// Decrypts an object.
    fn decrypt(state: &Self::State, id: ObjectId, object: Object) -> (r: Result<Object, DecryptionError>)
        ensures
            decrypted_result(r) == Self::decrypted(*state, id, object@),
    ;
}

/// The view of a file identifier.
pub open spec fn id_view(file_id: Option<&[u8]>) -> Option<Seq<u8>> {
    match file_id {
        Some(id) => Some(id@),
        None => None,
    }
}

/// The view of a password, or the error.
pub open spec fn password_result(r: Result<Vec<u8>, DecryptionError>) -> Result<Seq<u8>, DecryptionError> {
    match r {
        Ok(password) => Ok(password@),
        Err(error) => Err(error),
    }
}

/// The view of a decrypted object, or the error.
pub open spec fn decrypted_result(r: Result<Object, DecryptionError>) -> Result<ObjectView, DecryptionError> {
    match r {
        Ok(object) => Ok(object@),
        Err(error) => Err(error),
    }
}

/// Opens no protected document: every encryption dictionary asks for an
/// algorithm that it does not know.
pub struct NoSecurity;

impl SecurityHandler for NoSecurity {
    type Algorithm = ();

    type State = ();

    open spec fn algorithm_of(dict: DictionaryView) -> Result<(), DecryptionError> {
        Err(DecryptionError::UnsupportedAlgorithm)
    }

    open spec fn revision_of(algorithm: ()) -> i64 {
        0
    }

    open spec fn user_outcome(algorithm: (), file_id: Option<Seq<u8>>, password: Seq<u8>) -> Result<
        (),
        DecryptionError,
    > {
        Err(DecryptionError::UnsupportedAlgorithm)
    }

    open spec fn owner_outcome(algorithm: (), file_id: Option<Seq<u8>>, password: Seq<u8>) -> Result<
        (),
        DecryptionError,
    > {
        Err(DecryptionError::UnsupportedAlgorithm)
    }

    open spec fn recovery_outcome(algorithm: (), file_id: Option<Seq<u8>>, password: Seq<u8>) -> Result<
        Seq<u8>,
        DecryptionError,
    > {
        Err(DecryptionError::UnsupportedAlgorithm)
    }

    open spec fn state_of(dict: DictionaryView, file_id: Option<Seq<u8>>, password: Seq<u8>) -> Result<
        (),
        DecryptionError,
    > {
        Err(DecryptionError::UnsupportedAlgorithm)
    }

    open spec fn decrypted(state: (), id: ObjectId, object: ObjectView) -> Result<ObjectView, DecryptionError> {
        Ok(object)
    }

    fn algorithm(dict: &Dictionary) -> (r: Result<(), DecryptionError>) {
        Err(DecryptionError::UnsupportedAlgorithm)
    }

    fn revision(algorithm: &()) -> (r: i64) {
        0
    }

    fn authenticate_user(algorithm: &(), file_id: Option<&[u8]>, password: &[u8]) -> (r: Result<(), DecryptionError>) {
        Err(DecryptionError::UnsupportedAlgorithm)
    }

    fn authenticate_owner(algorithm: &(), file_id: Option<&[u8]>, password: &[u8]) -> (r: Result<(), DecryptionError>) {
        Err(DecryptionError::UnsupportedAlgorithm)
    }

    fn recover_user(algorithm: &(), file_id: Option<&[u8]>, password: &[u8]) -> (r: Result<Vec<u8>, DecryptionError>) {
        Err(DecryptionError::UnsupportedAlgorithm)
    }

    fn state(dict: &Dictionary, file_id: Option<&[u8]>, password: &[u8]) -> (r: Result<(), DecryptionError>) {
        Err(DecryptionError::UnsupportedAlgorithm)
    }

    fn decrypt(state: &(), id: ObjectId, object: Object) -> (r: Result<Object, DecryptionError>) {
        Ok(object)
    }
}

/// The password that a password opens the document as: itself where it is the
/// user's, the user's where it is the owner's, none where it is neither.
///
/// A failure other than a wrong password is reported; the user's comes first.
pub open spec fn authenticated(
    password: Seq<u8>,
    user: Result<(), DecryptionError>,
    owner: Result<Seq<u8>, DecryptionError>,
) -> Result<Option<Seq<u8>>, IndexedReaderError> {
    match user {
        Ok(()) => Ok(Some(password)),
        Err(user_error) => match owner {
            Ok(selected) => Ok(Some(selected)),
            Err(owner_error) => if user_error !is IncorrectPassword {
                Err(IndexedReaderError::Encryption(user_error))
            } else if owner_error is IncorrectPassword {
                Ok(None)
            } else {
                Err(IndexedReaderError::Encryption(owner_error))
            },
        },
    }
}

/// What trying a password as the owner's gives. Up to revision 4 it tells the
/// user's password; from revision 5 on the owner's stands for itself.
pub open spec fn owner_attempt<H: SecurityHandler>(
    algorithm: H::Algorithm,
    file_id: Option<Seq<u8>>,
    password: Seq<u8>,
) -> Result<Seq<u8>, DecryptionError> {
    if 2 <= H::revision_of(algorithm) <= 4 {
        H::recovery_outcome(algorithm, file_id, password)
    } else {
        match H::owner_outcome(algorithm, file_id, password) {
            Ok(()) => Ok(password),
            Err(error) => Err(error),
        }
    }
}

/// What a password opens the document as.
pub open spec fn authentication<H: SecurityHandler>(
    algorithm: H::Algorithm,
    file_id: Option<Seq<u8>>,
    password: Seq<u8>,
) -> Result<Option<Seq<u8>>, IndexedReaderError> {
    authenticated(
        password,
        H::user_outcome(algorithm, file_id, password),
        owner_attempt::<H>(algorithm, file_id, password),
    )
}

/// The view of what a password opens the document as.
pub open spec fn selection_result(r: Result<Option<Vec<u8>>, IndexedReaderError>) -> Result<
    Option<Seq<u8>>,
    IndexedReaderError,
> {
    match r {
        Ok(Some(password)) => Ok(Some(password@)),
        Ok(None) => Ok(None),
        Err(error) => Err(error),
    }
}

fn copy_password(password: &[u8]) -> (r: Vec<u8>)
    ensures
        r@ == password@,
{
    let copy = copy_range(password, 0, password.len());
    assert(copy@ =~= password@);
    copy
}

/// Finds out what a password opens the document as.
pub fn authenticate_password<H: SecurityHandler>(
    algorithm: &H::Algorithm,
    file_id: Option<&[u8]>,
    password: &[u8],
) -> (r: Result<Option<Vec<u8>>, IndexedReaderError>)
    ensures
        selection_result(r) == authentication::<H>(*algorithm, id_view(file_id), password@),
{
    let user_error: DecryptionError = match H::authenticate_user(algorithm, file_id, password) {
        Ok(()) => {
            return Ok(Some(copy_password(password)));
        },
        Err(error) => error,
    };
    let revision: i64 = H::revision(algorithm);
    let owner: Result<Vec<u8>, DecryptionError> = if 2 <= revision && revision <= 4 {
        H::recover_user(algorithm, file_id, password)
    } else {
        match H::authenticate_owner(algorithm, file_id, password) {
            Ok(()) => Ok(copy_password(password)),
            Err(error) => Err(error),
        }
    };
    match owner {
        Ok(selected) => Ok(Some(selected)),
        Err(owner_error) => if !matches!(user_error, DecryptionError::IncorrectPassword) {
            Err(IndexedReaderError::Encryption(user_error))
        } else if matches!(owner_error, DecryptionError::IncorrectPassword) {
            Ok(None)
        } else {
            Err(IndexedReaderError::Encryption(owner_error))
        },
    }
}

/// The password that a document is opened with: the empty one where it does,
/// else the one supplied.
pub open spec fn selected_password(
    empty: Result<Option<Seq<u8>>, IndexedReaderError>,
    supplied: Option<Result<Option<Seq<u8>>, IndexedReaderError>>,
) -> Result<Seq<u8>, IndexedReaderError> {
    match empty {
        Err(error) => Err(error),
        Ok(Some(selected)) => Ok(selected),
        Ok(None) => match supplied {
            None => Err(IndexedReaderError::PasswordRequired),
            Some(Err(error)) => Err(error),
            Some(Ok(Some(selected))) => Ok(selected),
            Some(Ok(None)) => Err(IndexedReaderError::InvalidPassword),
        },
    }
}

/// The password that a document with these rules is opened with.
pub open spec fn document_password<H: SecurityHandler>(
    algorithm: H::Algorithm,
    file_id: Option<Seq<u8>>,
    password: Option<Seq<u8>>,
) -> Result<Seq<u8>, IndexedReaderError> {
    selected_password(
        authentication::<H>(algorithm, file_id, Seq::empty()),
        match password {
            Some(password) => Some(authentication::<H>(algorithm, file_id, password)),
            None => None,
        },
    )
}

/// The view of a password, or the error.
pub open spec fn secret_result(r: Result<Vec<u8>, IndexedReaderError>) -> Result<Seq<u8>, IndexedReaderError> {
    match r {
        Ok(password) => Ok(password@),
        Err(error) => Err(error),
    }
}

/// Selects the password that a document with these rules is opened with.
pub fn select_password<H: SecurityHandler>(
    algorithm: &H::Algorithm,
    file_id: Option<&[u8]>,
    password: Option<&[u8]>,
) -> (r: Result<Vec<u8>, IndexedReaderError>)
    ensures
        secret_result(r) == document_password::<H>(*algorithm, id_view(file_id), id_view(password)),
{
    let empty: Vec<u8> = Vec::new();
    assert(empty@ =~= Seq::<u8>::empty());
    match authenticate_password::<H>(algorithm, file_id, empty.as_slice()) {
        Err(error) => Err(error),
        Ok(Some(selected)) => Ok(selected),
        Ok(None) => match password {
            None => Err(IndexedReaderError::PasswordRequired),
            Some(password) => match authenticate_password::<H>(algorithm, file_id, password) {
                Err(error) => Err(error),
                Ok(Some(selected)) => Ok(selected),
                Ok(None) => Err(IndexedReaderError::InvalidPassword),
            },
        },
    }
}

/// A document that the empty password opens never looks at the one supplied,
/// and one that no password opens says whether one was missing or wrong.
pub proof fn law_supplied_password_is_second(
    selected: Seq<u8>,
    supplied: Option<Result<Option<Seq<u8>>, IndexedReaderError>>,
)
    ensures
        selected_password(Ok(Some(selected)), supplied) == Ok::<Seq<u8>, IndexedReaderError>(selected),
        selected_password(Ok(None), None) == Err::<Seq<u8>, IndexedReaderError>(IndexedReaderError::PasswordRequired),
        selected_password(Ok(None), Some(Ok(None))) == Err::<Seq<u8>, IndexedReaderError>(
            IndexedReaderError::InvalidPassword,
        ),
{
}

} // verus!
