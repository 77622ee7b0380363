//! The error type shared by every part of the library.

use vstd::prelude::*;

use crate::text::join2;

verus! {

/// What can go wrong while describing, reading, sampling or writing a raster.
///
/// Errors that start outside the library (file system, object store, TIFF
/// decoding, URL parsing, Parquet encoding) arrive as their message text.
#[derive(Debug)]
pub enum A5CogError {
    /// The file system refused an operation.
    Io(String),
    /// The object store client failed.
    ObjectStore(String),
    /// The TIFF reader or decoder failed.
    Tiff(String),
    /// A coordinate reference system could not be built or applied.
    Proj(String),
    /// The A5 grid refused a cell or a coordinate.
    A5(String),
    /// A GeoTIFF key that the read depends on is absent.
    MissingGeoKey(String),
    /// The raster or the request uses something that is not handled.
    Unsupported(String),
    /// The caller passed an argument that makes no sense.
    Invalid(String),
    /// A source string is not a URL.
    Url(String),
    /// An internal limit was exceeded.
    Internal(String),
    /// A worker task ended abnormally.
    WorkerJoin(String),
    /// The Parquet encoder failed.
    Parquet(String),
}

/// The prefix that [`A5CogError::message`] puts before the payload.
pub open spec fn error_prefix(e: A5CogError) -> Seq<char> {
    match e {
        A5CogError::Io(_) => "io error: "@,
        A5CogError::ObjectStore(_) => "object_store error: "@,
        A5CogError::Tiff(_) => "async-tiff error: "@,
        A5CogError::Proj(_) => "proj error: "@,
        A5CogError::A5(_) => "a5 error: "@,
        A5CogError::MissingGeoKey(_) => "missing geokey: "@,
        A5CogError::Unsupported(_) => "unsupported configuration: "@,
        A5CogError::Invalid(_) => "invalid input: "@,
        A5CogError::Url(_) => "url parse error: "@,
        A5CogError::Internal(_) => "internal error: "@,
        A5CogError::WorkerJoin(_) => "worker join error: "@,
        A5CogError::Parquet(_) => "parquet error: "@,
    }
}

/// The text that an error carries.
pub open spec fn error_payload(e: A5CogError) -> Seq<char> {
    match e {
        A5CogError::Io(m) => m@,
        A5CogError::ObjectStore(m) => m@,
        A5CogError::Tiff(m) => m@,
        A5CogError::Proj(m) => m@,
        A5CogError::A5(m) => m@,
        A5CogError::MissingGeoKey(m) => m@,
        A5CogError::Unsupported(m) => m@,
        A5CogError::Invalid(m) => m@,
        A5CogError::Url(m) => m@,
        A5CogError::Internal(m) => m@,
        A5CogError::WorkerJoin(m) => m@,
        A5CogError::Parquet(m) => m@,
    }
}

/// `e` is an [`A5CogError::Invalid`] with exactly this text.
pub open spec fn is_invalid(e: A5CogError, text: Seq<char>) -> bool {
    e is Invalid && error_payload(e) == text
}

/// `e` is an [`A5CogError::Unsupported`] with exactly this text.
pub open spec fn is_unsupported(e: A5CogError, text: Seq<char>) -> bool {
    e is Unsupported && error_payload(e) == text
}

/// `e` is an [`A5CogError::MissingGeoKey`] with exactly this text.
pub open spec fn is_missing_geokey(e: A5CogError, text: Seq<char>) -> bool {
    e is MissingGeoKey && error_payload(e) == text
}

/// `e` is an [`A5CogError::Proj`] with exactly this text.
pub open spec fn is_proj(e: A5CogError, text: Seq<char>) -> bool {
    e is Proj && error_payload(e) == text
}

/// `e` is an [`A5CogError::Internal`] with exactly this text.
pub open spec fn is_internal(e: A5CogError, text: Seq<char>) -> bool {
    e is Internal && error_payload(e) == text
}

impl A5CogError {
    /// The message shown to the user: what kind of failure, then its text.
    pub fn message(&self) -> (r: String)
        ensures
            r@ == error_prefix(*self) + error_payload(*self),
    {
        match self {
            A5CogError::Io(m) => join2("io error: ", m.as_str()),
            A5CogError::ObjectStore(m) => join2("object_store error: ", m.as_str()),
            A5CogError::Tiff(m) => join2("async-tiff error: ", m.as_str()),
            A5CogError::Proj(m) => join2("proj error: ", m.as_str()),
            A5CogError::A5(m) => join2("a5 error: ", m.as_str()),
            A5CogError::MissingGeoKey(m) => join2("missing geokey: ", m.as_str()),
            A5CogError::Unsupported(m) => join2("unsupported configuration: ", m.as_str()),
            A5CogError::Invalid(m) => join2("invalid input: ", m.as_str()),
            A5CogError::Url(m) => join2("url parse error: ", m.as_str()),
            A5CogError::Internal(m) => join2("internal error: ", m.as_str()),
            A5CogError::WorkerJoin(m) => join2("worker join error: ", m.as_str()),
            A5CogError::Parquet(m) => join2("parquet error: ", m.as_str()),
        }
    }
}

/// An [`A5CogError::Invalid`] with the given text.
pub fn invalid(text: &str) -> (r: A5CogError)
    ensures
        is_invalid(r, text@),
{
    A5CogError::Invalid(text.to_owned())
}

/// An [`A5CogError::Unsupported`] with the given text.
pub fn unsupported(text: &str) -> (r: A5CogError)
    ensures
        is_unsupported(r, text@),
{
    A5CogError::Unsupported(text.to_owned())
}

// ---------------------------------------------------------------------------
// laws

/// The message of an error starts with the words for its kind, and no two kinds start
/// alike.
pub proof fn kinds_have_their_words(e: A5CogError)
    ensures
        e is Io ==> error_prefix(e) == "io error: "@,
        e is ObjectStore ==> error_prefix(e) == "object_store error: "@,
        e is Tiff ==> error_prefix(e) == "async-tiff error: "@,
        e is Proj ==> error_prefix(e) == "proj error: "@,
        e is A5 ==> error_prefix(e) == "a5 error: "@,
        e is MissingGeoKey ==> error_prefix(e) == "missing geokey: "@,
        e is Unsupported ==> error_prefix(e) == "unsupported configuration: "@,
        e is Invalid ==> error_prefix(e) == "invalid input: "@,
        e is Url ==> error_prefix(e) == "url parse error: "@,
        e is Internal ==> error_prefix(e) == "internal error: "@,
        e is WorkerJoin ==> error_prefix(e) == "worker join error: "@,
        e is Parquet ==> error_prefix(e) == "parquet error: "@,
        e matches A5CogError::Invalid(m) ==> error_payload(e) == m@,
        e matches A5CogError::Unsupported(m) ==> error_payload(e) == m@,
        e matches A5CogError::Proj(m) ==> error_payload(e) == m@,
        e matches A5CogError::MissingGeoKey(m) ==> error_payload(e) == m@,
        e matches A5CogError::Internal(m) ==> error_payload(e) == m@,
{
}

/// An error is of a kind with a text exactly where it is that variant and holds that
/// text; so it is of one kind only.
pub proof fn kinds_are_told_apart(m: String, text: Seq<char>)
    ensures
        is_invalid(A5CogError::Invalid(m), text) <==> m@ == text,
        is_unsupported(A5CogError::Unsupported(m), text) <==> m@ == text,
        is_missing_geokey(A5CogError::MissingGeoKey(m), text) <==> m@ == text,
        is_proj(A5CogError::Proj(m), text) <==> m@ == text,
        is_internal(A5CogError::Internal(m), text) <==> m@ == text,
        forall|e: A5CogError| #[trigger]
            is_invalid(e, text) ==> !is_unsupported(e, text) && !is_missing_geokey(e, text)
                && !is_proj(e, text) && !is_internal(e, text) && e is Invalid,
        forall|e: A5CogError| #[trigger]
            is_unsupported(e, text) ==> !is_missing_geokey(e, text) && !is_proj(e, text)
                && !is_internal(e, text) && e is Unsupported,
        forall|e: A5CogError| #[trigger]
            is_missing_geokey(e, text) ==> !is_proj(e, text) && !is_internal(e, text)
                && e is MissingGeoKey,
        forall|e: A5CogError| #[trigger]
            is_proj(e, text) ==> !is_internal(e, text) && e is Proj,
{
}

} // verus!
