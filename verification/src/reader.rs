//! Opening documents for reading.

use std::sync::Arc;

use vstd::prelude::*;

use crate::errors::IndexedReaderError;
use crate::object::{array_view, dict_get, Dictionary, DictionaryView, Object, ObjectId, ObjectView};
use crate::open::{index_result, IndexView, PdfIndex};
use crate::options::{default_options, limits_of, options_with, IndexedReaderOptions, ResolverLimits};
use crate::recovery::{index_of, indexes};
use crate::resolve::{
    asks_for_normal, deciphered, normal_object_with, object_result, plain_object, source_failed, DocumentView,
    IndexedReader, ResolutionState,
};
use crate::security::{document_password, id_view, select_password, NoSecurity, SecurityHandler};
use crate::source::RandomAccessSource;

verus! {

/// The bytes of `Encrypt`.
pub const KEY_ENCRYPT: [u8; 7] = [0x45, 0x6e, 0x63, 0x72, 0x79, 0x70, 0x74];

/// The bytes of `ID`.
pub const KEY_ID: [u8; 2] = [0x49, 0x44];

/// The first of the document's identifiers.
pub open spec fn file_id(trailer: DictionaryView) -> Option<Seq<u8>> {
    match dict_get(trailer, KEY_ID@) {
        Some(ObjectView::Array(items)) => if items.len() > 0 {
            match items[0] {
                ObjectView::String(bytes, _) => Some(bytes),
                _ => None,
            }
        } else {
            None
        },
        _ => None,
    }
}

/// The document that an index describes, before it is known to be protected.
pub open spec fn unprotected(contents: Seq<u8>, index: IndexView, limits: ResolverLimits) -> DocumentView {
    DocumentView {
        contents,
        origin: index.source_origin,
        locations: index.locations,
        limits,
        encrypt_object_id: None,
        cipher: None,
    }
}

/// The encryption dictionary, and the object that holds it; nothing where the
/// document is not protected.
pub open spec fn encrypt_dictionary(d: DocumentView, trailer: DictionaryView) -> Result<
    Option<(DictionaryView, Option<ObjectId>)>,
    IndexedReaderError,
> {
    match dict_get(trailer, KEY_ENCRYPT@) {
        None => Ok(None),
        Some(ObjectView::Dictionary(dict)) => Ok(Some((dict, None))),
        Some(ObjectView::Reference(id)) => match plain_object(d, id, Seq::empty(), 0) {
            Err(error) => Err(error),
            Ok(ObjectView::Dictionary(dict)) => Ok(Some((dict, Some(id)))),
            Ok(_) => Err(IndexedReaderError::InvalidEncryptDictionary),
        },
        Some(_) => Err(IndexedReaderError::InvalidEncryptDictionary),
    }
}

/// What a document with this encryption dictionary is decrypted with.
pub open spec fn state_from<H: SecurityHandler>(
    dict: DictionaryView,
    id: Option<Seq<u8>>,
    password: Option<Seq<u8>>,
) -> Result<H::State, IndexedReaderError> {
    match H::algorithm_of(dict) {
        Err(error) => Err(IndexedReaderError::Encryption(error)),
        Ok(algorithm) => match document_password::<H>(algorithm, id, password) {
            Err(error) => Err(error),
            Ok(selected) => match H::state_of(dict, id, selected) {
                Err(error) => Err(IndexedReaderError::Encryption(error)),
                Ok(state) => Ok(state),
            },
        },
    }
}

/// What a document is decrypted with, and the object that holds its encryption
/// dictionary; nothing where it is not protected.
pub open spec fn protection_of<H: SecurityHandler>(
    d: DocumentView,
    trailer: DictionaryView,
    password: Option<Seq<u8>>,
) -> Result<Option<(H::State, Option<ObjectId>)>, IndexedReaderError> {
    match encrypt_dictionary(d, trailer) {
        Err(error) => Err(error),
        Ok(None) => Ok(None),
        Ok(Some((dict, id))) => match state_from::<H>(dict, file_id(trailer), password) {
            Err(error) => Err(error),
            Ok(state) => Ok(Some((state, id))),
        },
    }
}

/// The encryption dictionary that a resolved object is.
pub open spec fn encrypt_in(object: Result<ObjectView, IndexedReaderError>, id: ObjectId) -> Result<
    Option<(DictionaryView, Option<ObjectId>)>,
    IndexedReaderError,
> {
    match object {
        Err(error) => Err(error),
        Ok(ObjectView::Dictionary(dict)) => Ok(Some((dict, Some(id)))),
        Ok(_) => Err(IndexedReaderError::InvalidEncryptDictionary),
    }
}

/// What a source that may fail leaves of the encryption dictionary of a document.
pub open spec fn leaves_encrypt_dictionary(
    got: Result<Option<(DictionaryView, Option<ObjectId>)>, IndexedReaderError>,
    d: DocumentView,
    trailer: DictionaryView,
) -> bool {
    match dict_get(trailer, KEY_ENCRYPT@) {
        Some(ObjectView::Reference(id)) => (source_failed(got) && asks_for_normal(d, id)) || exists|length: Option<i64>|
            got == encrypt_in(#[trigger] normal_object_with(d, id, length), id),
        _ => got == encrypt_dictionary(d, trailer),
    }
}

/// What a source that may fail leaves of what a document is decrypted with.
pub open spec fn leaves_protection<H: SecurityHandler>(
    got: Result<Option<(H::State, Option<ObjectId>)>, IndexedReaderError>,
    d: DocumentView,
    trailer: DictionaryView,
    password: Option<Seq<u8>>,
) -> bool {
    exists|found: Result<Option<(DictionaryView, Option<ObjectId>)>, IndexedReaderError>| #[trigger]
        leaves_encrypt_dictionary(found, d, trailer) && got == (match found {
            Err(error) => Err(error),
            Ok(None) => Ok(None),
            Ok(Some((dict, id))) => match state_from::<H>(dict, file_id(trailer), password) {
                Err(error) => Err(error),
                Ok(state) => Ok(Some((state, id))),
            },
        })
}

/// The view of a password.
pub open spec fn password_view(password: Option<Vec<u8>>) -> Option<Seq<u8>> {
    match password {
        Some(password) => Some(password@),
        None => None,
    }
}

/// The view of the password that options carry.
pub open spec fn password_of(options: IndexedReaderOptions) -> Option<Seq<u8>> {
    password_view(options.password)
}

/// The options that a reader keeps: the password is not kept.
pub open spec fn without_password(options: IndexedReaderOptions) -> IndexedReaderOptions {
    IndexedReaderOptions { password: None, ..options }
}

/// What a document opens as: its index, and its protection.
pub open spec fn opened<H: SecurityHandler>(contents: Seq<u8>, options: IndexedReaderOptions) -> Result<
    (IndexView, Option<(H::State, Option<ObjectId>)>),
    IndexedReaderError,
> {
    match index_of(contents) {
        Err(error) => Err(error),
        Ok(index) => match protection_of::<H>(
            unprotected(contents, index, limits_of(options)),
            index.trailer,
            password_of(options),
        ) {
            Err(error) => Err(error),
            Ok(protection) => Ok((index, protection)),
        },
    }
}

/// The reader is what the document opens as.
pub open spec fn opens_as<S: RandomAccessSource, H: SecurityHandler>(
    r: Result<IndexedReader<S, H>, IndexedReaderError>,
    expected: Result<(IndexView, Option<(H::State, Option<ObjectId>)>), IndexedReaderError>,
) -> bool {
    match (r, expected) {
        (Err(error), Err(other)) => error == other,
        (Ok(reader), Ok((index, protection))) => {
            &&& reader.index@ == index
            &&& match protection {
                None => reader.encryption_state is None && reader.encrypt_object_id is None,
                Some((state, id)) => reader.encryption_state == Some(state) && reader.encrypt_object_id == id,
            }
        },
        _ => false,
    }
}

/// The reader has this index and what a source that may fail leaves of the
/// document's protection.
pub open spec fn leaves_reader<S: RandomAccessSource, H: SecurityHandler>(
    r: Result<IndexedReader<S, H>, IndexedReaderError>,
    contents: Seq<u8>,
    index: IndexView,
    limits: ResolverLimits,
    password: Option<Seq<u8>>,
) -> bool {
    exists|protection: Result<Option<(H::State, Option<ObjectId>)>, IndexedReaderError>| #[trigger]
        leaves_protection::<H>(protection, unprotected(contents, index, limits), index.trailer, password) && opens_as(
            r,
            match protection {
                Err(error) => Err(error),
                Ok(protection) => Ok((index, protection)),
            },
        )
}

/// What a source that may fail leaves of opening a document: what is left of its
/// index, and then of its protection.
pub open spec fn leaves_opened<S: RandomAccessSource, H: SecurityHandler>(
    r: Result<IndexedReader<S, H>, IndexedReaderError>,
    contents: Seq<u8>,
    options: IndexedReaderOptions,
) -> bool {
    exists|index: Result<IndexView, IndexedReaderError>| #[trigger]
        indexes(index, contents) && match index {
            Err(error) => r == Err::<IndexedReader<S, H>, IndexedReaderError>(error),
            Ok(index) => leaves_reader(r, contents, index, limits_of(options), password_of(options)),
        }
}

impl<S: RandomAccessSource, H: SecurityHandler> IndexedReader<S, H> {
    /// The reader's index was made of its source.
    pub open spec fn well_formed(&self) -> bool {
        &&& self.index.source_len == self.source.contents().len()
        &&& self.index.source_origin <= self.index.source_len
        &&& self.limits == limits_of(self.options)
    }

    /// Opens a source that others share, with a handler for protected documents.
    pub fn open_protected(source: Arc<S>, options: IndexedReaderOptions) -> (r: Result<Self, IndexedReaderError>)
        ensures
            source.reliable() ==> opens_as(r, opened::<H>(source.contents(), options)),
            leaves_opened(r, source.contents(), options),
            r matches Ok(reader) ==> reader.well_formed() && *reader.source == *source && reader.options
                == without_password(options),
    {
        let found = PdfIndex::open(&*source);
        assert(indexes(index_result(found), source.contents()));
        let index = match found {
            Ok(index) => index,
            Err(error) => {
                return Err(error);
            },
        };
        let limits = ResolverLimits::from(&options);
        let mut options = options;
        let password: Option<Vec<u8>> = options.password;
        options.password = None;
        let reader: IndexedReader<S, H> = IndexedReader {
            source,
            index,
            limits,
            options,
            encryption_state: None,
            encrypt_object_id: None,
        };
        reader.initialize_encryption(password)
    }

    /// Opens a source that others share, with these limits and this password.
    pub fn open_with_password(source: Arc<S>, limits: ResolverLimits, password: Option<Vec<u8>>) -> (r: Result<
        Self,
        IndexedReaderError,
    >)
        ensures
            source.reliable() ==> opens_as(r, opened::<H>(source.contents(), options_with(limits, password))),
            leaves_opened(r, source.contents(), options_with(limits, password)),
            r matches Ok(reader) ==> reader.well_formed() && *reader.source == *source && reader.limits == limits
               ,
    {
        IndexedReader::open_protected(source, IndexedReaderOptions::with_limits(limits, password))
    }

    /// Opens a source that others share, with these limits.
    pub fn open_with_limits(source: Arc<S>, limits: ResolverLimits) -> (r: Result<Self, IndexedReaderError>)
        ensures
            source.reliable() ==> opens_as(r, opened::<H>(source.contents(), options_with(limits, None))),
            leaves_opened(r, source.contents(), options_with(limits, None)),
            r matches Ok(reader) ==> reader.well_formed() && *reader.source == *source && reader.limits == limits
               ,
    {
        IndexedReader::open_with_password(source, limits, None)
    }

    /// Authenticates a protected document.
    fn initialize_encryption(self, password: Option<Vec<u8>>) -> (r: Result<Self, IndexedReaderError>)
        requires
            self.encryption_state is None,
            self.encrypt_object_id is None,
        ensures
            r matches Ok(reader) ==> reader.source == self.source && reader.index == self.index && reader.limits
                == self.limits && reader.options == self.options,
            self.source.reliable() ==> opens_as(
                r,
                match protection_of::<H>(
                    unprotected(self.source.contents(), self.index@, self.limits),
                    self.index@.trailer,
                    password_view(password),
                ) {
                    Err(error) => Err(error),
                    Ok(protection) => Ok((self.index@, protection)),
                },
            ),
            leaves_reader(
                r,
                self.source.contents(),
                self.index@,
                self.limits,
                password_view(password),
            ),
    {
        let ghost d = unprotected(self.source.contents(), self.index@, self.limits);
        let ghost trailer = self.index@.trailer;
        let ghost secret = password_view(password);
        let found = self.find_encrypt_dictionary();
        assert(leaves_encrypt_dictionary(encrypt_result(found), d, trailer));
        let (dict, encrypt_object_id): (Dictionary, Option<ObjectId>) = match found {
            Err(error) => {
                assert(leaves_protection::<H>(Err(error), d, trailer, secret));
                return Err(error);
            },
            Ok(None) => {
                assert(leaves_protection::<H>(Ok(None), d, trailer, secret));
                return Ok(self);
            },
            Ok(Some(found)) => found,
        };
        let file_id: Option<&[u8]> = trailer_file_id(&self.index.trailer);
        let supplied: Option<&[u8]> = match &password {
            Some(password) => Some(password.as_slice()),
            None => None,
        };
        let state = match open_state::<H>(&dict, file_id, supplied) {
            Ok(state) => state,
            Err(error) => {
                assert(leaves_protection::<H>(Err(error), d, trailer, secret));
                return Err(error);
            },
        };
        assert(leaves_protection::<H>(Ok(Some((state, encrypt_object_id))), d, trailer, secret));
        let mut reader = self;
        reader.encryption_state = Some(state);
        reader.encrypt_object_id = encrypt_object_id;
        Ok(reader)
    }

    /// Finds the dictionary that says how the document is encrypted, and the object
    /// that holds it.
    fn find_encrypt_dictionary(&self) -> (r: Result<Option<(Dictionary, Option<ObjectId>)>, IndexedReaderError>)
        requires
            self.encryption_state is None,
            self.encrypt_object_id is None,
        ensures
            self.source.reliable() ==> encrypt_result(r) == encrypt_dictionary(
                unprotected(self.source.contents(), self.index@, self.limits),
                self.index@.trailer,
            ),
            leaves_encrypt_dictionary(
                encrypt_result(r),
                unprotected(self.source.contents(), self.index@, self.limits),
                self.index@.trailer,
            ),
    {
        let ghost d = unprotected(self.source.contents(), self.index@, self.limits);
        assert(d == self.document());
        match self.index.trailer.get(&KEY_ENCRYPT) {
            None => Ok(None),
            Some(Object::Dictionary(dict)) => Ok(Some((dict.clone(), None))),
            Some(Object::Reference(id)) => {
                let mut state = ResolutionState::new();
                assert(state.active@ =~= Seq::<ObjectId>::empty());
                let resolved = self.resolve_normal_plain(*id, &mut state);
                proof {
                    if !source_failed(resolved) {
                        let length = choose|length: Option<i64>|
                            deciphered(d, *id, object_result(resolved)) == #[trigger] normal_object_with(
                                d,
                                *id,
                                length,
                            );
                        assert(object_result(resolved) == normal_object_with(d, *id, length));
                    }
                }
                match resolved {
                    Err(error) => Err(error),
                    Ok(Object::Dictionary(dict)) => Ok(Some((dict, Some(*id)))),
                    Ok(_) => Err(IndexedReaderError::InvalidEncryptDictionary),
                }
            },
            Some(_) => Err(IndexedReaderError::InvalidEncryptDictionary),
        }
    }

    /// The version that the header states.
    pub fn version(&self) -> (r: &str)
        ensures
            r@ == self.index@.version,
    {
        self.index.version.as_str()
    }

    /// How many bytes the source had when it was opened.
    pub fn source_len(&self) -> (r: u64)
        ensures
            r == self.index@.source_len,
    {
        self.index.source_len
    }

    /// Reports whether the trailer names an encryption dictionary.
    pub fn is_encrypted(&self) -> (r: bool)
        ensures
            r == (dict_get(self.index@.trailer, KEY_ENCRYPT@) is Some),
    {
        self.index.trailer.has(&KEY_ENCRYPT)
    }

    /// Reports whether a protected document has been authenticated.
    pub fn is_authenticated(&self) -> (r: bool)
        ensures
            r == (self.encryption_state is Some),
    {
        self.encryption_state.is_some()
    }
}

/// The view of an encryption dictionary, or the error.
pub open spec fn encrypt_result(r: Result<Option<(Dictionary, Option<ObjectId>)>, IndexedReaderError>) -> Result<
    Option<(DictionaryView, Option<ObjectId>)>,
    IndexedReaderError,
> {
    match r {
        Ok(Some((dict, id))) => Ok(Some((dict@, id))),
        Ok(None) => Ok(None),
        Err(error) => Err(error),
    }
}

/// Finds out what a document with this encryption dictionary is decrypted with.
fn open_state<H: SecurityHandler>(dict: &Dictionary, file_id: Option<&[u8]>, password: Option<&[u8]>) -> (r: Result<
    H::State,
    IndexedReaderError,
>)
    ensures
        r == state_from::<H>(dict@, id_view(file_id), id_view(password)),
{
    let algorithm = match H::algorithm(dict) {
        Ok(algorithm) => algorithm,
        Err(error) => {
            return Err(IndexedReaderError::Encryption(error));
        },
    };
    let selected: Vec<u8> = match select_password::<H>(&algorithm, file_id, password) {
        Ok(selected) => selected,
        Err(error) => {
            return Err(error);
        },
    };
    match H::state(dict, file_id, selected.as_slice()) {
        Ok(state) => Ok(state),
        Err(error) => Err(IndexedReaderError::Encryption(error)),
    }
}

/// The first of the document's identifiers.
fn trailer_file_id(trailer: &Dictionary) -> (r: Option<&[u8]>)
    ensures
        id_view(r) == file_id(trailer@),
{
    match trailer.get(&KEY_ID) {
        Some(value) => match value.as_array() {
            Some(items) => if items.len() > 0 {
                assert(array_view(items@)[0] == items@[0]@);
                items[0].as_str()
            } else {
                None
            },
            None => None,
        },
        None => None,
    }
}

impl<S: RandomAccessSource> IndexedReader<S, NoSecurity> {
    /// Opens a source with the default limits.
    pub fn open(source: S) -> (r: Result<Self, IndexedReaderError>)
        ensures
            source.reliable() ==> opens_as(r, opened::<NoSecurity>(source.contents(), default_options())),
            leaves_opened(r, source.contents(), default_options()),
            r matches Ok(reader) ==> reader.well_formed() && *reader.source == source && reader.options
                == default_options(),
    {
        IndexedReader::open_with_options(source, IndexedReaderOptions::default())
    }

    /// Opens a source with these limits.
    pub fn open_with_options(source: S, options: IndexedReaderOptions) -> (r: Result<Self, IndexedReaderError>)
        ensures
            source.reliable() ==> opens_as(r, opened::<NoSecurity>(source.contents(), options)),
            leaves_opened(r, source.contents(), options),
            r matches Ok(reader) ==> reader.well_formed() && *reader.source == source && reader.options
                == without_password(options),
    {
        IndexedReader::open_shared(Arc::new(source), options)
    }

    /// Opens a source that others share.
    pub fn open_shared(source: Arc<S>, options: IndexedReaderOptions) -> (r: Result<Self, IndexedReaderError>)
        ensures
            source.reliable() ==> opens_as(r, opened::<NoSecurity>(source.contents(), options)),
            leaves_opened(r, source.contents(), options),
            r matches Ok(reader) ==> reader.well_formed() && *reader.source == *source && reader.options
                == without_password(options),
    {
        IndexedReader::open_protected(source, options)
    }
}

} // verus!
