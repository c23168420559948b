//! With which password a document is opened.

use vstd::prelude::*;

use crate::errors::{DecryptionError, IndexedReaderError};
use crate::security::{document_password, SecurityHandler};

verus! {

/// The password is the user's.
pub open spec fn is_users<H: SecurityHandler>(
    algorithm: H::Algorithm,
    file_id: Option<Seq<u8>>,
    password: Seq<u8>,
) -> bool {
    H::user_outcome(algorithm, file_id, password) is Ok
}

/// The password is neither the user's nor the owner's.
pub open spec fn is_wrong<H: SecurityHandler>(
    algorithm: H::Algorithm,
    file_id: Option<Seq<u8>>,
    password: Seq<u8>,
) -> bool {
    &&& H::user_outcome(algorithm, file_id, password) == Err::<(), DecryptionError>(DecryptionError::IncorrectPassword)
    &&& if 2 <= H::revision_of(algorithm) <= 4 {
        H::recovery_outcome(algorithm, file_id, password) == Err::<Seq<u8>, DecryptionError>(
            DecryptionError::IncorrectPassword,
        )
    } else {
        H::owner_outcome(algorithm, file_id, password) == Err::<(), DecryptionError>(
            DecryptionError::IncorrectPassword,
        )
    }
}

/// A document that opens without a password is opened without one, whatever is supplied.
/// Else the supplied password opens it: as itself where it is the user's, and where it is
/// the owner's, as the user's that it tells, or from revision 5 on as itself. A wrong
/// one is refused, and so is none.
pub proof fn law_documents_open_with_the_right_password<H: SecurityHandler>(
    algorithm: H::Algorithm,
    file_id: Option<Seq<u8>>,
    password: Seq<u8>,
    told: Seq<u8>,
    supplied: Option<Seq<u8>>,
)
    ensures
        is_users::<H>(algorithm, file_id, Seq::empty()) ==> document_password::<H>(algorithm, file_id, supplied)
            == Ok::<Seq<u8>, IndexedReaderError>(Seq::empty()),
        is_wrong::<H>(algorithm, file_id, Seq::empty()) ==> {
            &&& document_password::<H>(algorithm, file_id, None) == Err::<Seq<u8>, IndexedReaderError>(
                IndexedReaderError::PasswordRequired,
            )
            &&& is_users::<H>(algorithm, file_id, password) ==> document_password::<H>(
                algorithm,
                file_id,
                Some(password),
            ) == Ok::<Seq<u8>, IndexedReaderError>(password)
            &&& is_wrong::<H>(algorithm, file_id, password) ==> document_password::<H>(
                algorithm,
                file_id,
                Some(password),
            ) == Err::<Seq<u8>, IndexedReaderError>(IndexedReaderError::InvalidPassword)
            &&& !is_users::<H>(algorithm, file_id, password) && 2 <= H::revision_of(algorithm) <= 4
                && H::recovery_outcome(algorithm, file_id, password) == Ok::<Seq<u8>, DecryptionError>(told)
                ==> document_password::<H>(algorithm, file_id, Some(password)) == Ok::<Seq<u8>, IndexedReaderError>(told)
            &&& !is_users::<H>(algorithm, file_id, password) && H::revision_of(algorithm) >= 5 && H::owner_outcome(
                algorithm,
                file_id,
                password,
            ) is Ok ==> document_password::<H>(algorithm, file_id, Some(password)) == Ok::<
                Seq<u8>,
                IndexedReaderError,
            >(password)
        },
{
}

} // verus!
