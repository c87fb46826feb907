//! The decisions of the HTTP surface that can be checked: the error
//! taxonomy with its status codes, route selection, the write body
//! limit, content-encoding validation, database naming, and the
//! in-memory writer buffer that snapshots are rendered into.

use vstd::prelude::*;

use crate::ordering::{str_compare, KeyOrder};

verus! {

/// Largest accepted write request body, in bytes.
pub const MAX_SIZE: usize = 10485760;

/// The application-level errors of the HTTP surface. Causes carried by
/// outside libraries in the host are carried here as their rendered
/// descriptions.
#[derive(Debug)]
pub enum ApplicationError {
    BucketByName { org: String, bucket_name: String, description: String },
    WritingPoints { org: String, bucket_name: String, description: String },
    Query { database: String, description: String },
    BucketNotFound { org: String, bucket: String },
    RequestSizeExceeded { max_body_size: usize },
    ExpectedQueryString {  },
    InvalidQueryString { query_string: String, description: String },
    QueryError { description: String },
    InvalidRequestBody { request_body: String, description: String },
    InvalidContentEncoding { content_encoding: String },
    ReadingHeaderAsUtf8 { header_name: String, description: String },
    ReadingBody { description: String },
    ReadingBodyAsUtf8 { description: String },
    ParsingLineProtocol { description: String },
    ReadingBodyAsGzip { description: String },
    RouteNotFound { method: String, path: String },
    CreatingGzipDecoder { description: String },
    DatabaseError { database: String, description: String },
    JsonGenerationError { description: String },
}

impl ApplicationError {
    /// The HTTP status code reported for the error: 500 for internal
    /// faults, 404 for missing routes and buckets, 400 for everything
    /// the client got wrong.
    pub fn status_code(&self) -> (code: u16)
        ensures
            code == match self {
                ApplicationError::BucketByName { .. } => 500u16,
                ApplicationError::WritingPoints { .. } => 500u16,
                ApplicationError::Query { .. } => 500u16,
                ApplicationError::QueryError { .. } => 400u16,
                ApplicationError::BucketNotFound { .. } => 404u16,
                ApplicationError::RequestSizeExceeded { .. } => 400u16,
                ApplicationError::ExpectedQueryString { .. } => 400u16,
                ApplicationError::InvalidQueryString { .. } => 400u16,
                ApplicationError::InvalidRequestBody { .. } => 400u16,
                ApplicationError::InvalidContentEncoding { .. } => 400u16,
                ApplicationError::ReadingHeaderAsUtf8 { .. } => 400u16,
                ApplicationError::ReadingBody { .. } => 400u16,
                ApplicationError::ReadingBodyAsUtf8 { .. } => 400u16,
                ApplicationError::ParsingLineProtocol { .. } => 400u16,
                ApplicationError::ReadingBodyAsGzip { .. } => 400u16,
                ApplicationError::RouteNotFound { .. } => 404u16,
                ApplicationError::CreatingGzipDecoder { .. } => 500u16,
                ApplicationError::DatabaseError { .. } => 500u16,
                ApplicationError::JsonGenerationError { .. } => 500u16,
            },
    {
        match self {
            ApplicationError::BucketByName { .. } => 500,
            ApplicationError::WritingPoints { .. } => 500,
            ApplicationError::Query { .. } => 500,
            ApplicationError::QueryError { .. } => 400,
            ApplicationError::BucketNotFound { .. } => 404,
            ApplicationError::RequestSizeExceeded { .. } => 400,
            ApplicationError::ExpectedQueryString { .. } => 400,
            ApplicationError::InvalidQueryString { .. } => 400,
            ApplicationError::InvalidRequestBody { .. } => 400,
            ApplicationError::InvalidContentEncoding { .. } => 400,
            ApplicationError::ReadingHeaderAsUtf8 { .. } => 400,
            ApplicationError::ReadingBody { .. } => 400,
            ApplicationError::ReadingBodyAsUtf8 { .. } => 400,
            ApplicationError::ParsingLineProtocol { .. } => 400,
            ApplicationError::ReadingBodyAsGzip { .. } => 400,
            ApplicationError::RouteNotFound { .. } => 404,
            ApplicationError::CreatingGzipDecoder { .. } => 500,
            ApplicationError::DatabaseError { .. } => 500,
            ApplicationError::JsonGenerationError { .. } => 500,
        }
    }
}

/// The routes the service answers.
#[derive(Debug, Clone, Copy, PartialEq, Eq, Structural)]
pub enum Route {
    Write,
    CreateBucket,
    Ping,
    Read,
    NotFound,
}

/// Selects the route for a request: writes and bucket creation go by
/// `POST`, ping and reads by `GET`; everything else is unrouted.
pub fn route_request(method: &str, path: &str) -> (r: Route)
    ensures
        r == if method@ == "POST"@ && path@ == "/api/v2/write"@ {
            Route::Write
        } else if method@ == "POST"@ && path@ == "/api/v2/buckets"@ {
            Route::CreateBucket
        } else if method@ == "GET"@ && path@ == "/ping"@ {
            Route::Ping
        } else if method@ == "GET"@ && path@ == "/api/v2/read"@ {
            Route::Read
        } else {
            Route::NotFound
        },
{
    let is_post = str_compare(method, "POST") == KeyOrder::Equal;
    let is_get = str_compare(method, "GET") == KeyOrder::Equal;
    if is_post && str_compare(path, "/api/v2/write") == KeyOrder::Equal {
        Route::Write
    } else if is_post && str_compare(path, "/api/v2/buckets") == KeyOrder::Equal {
        Route::CreateBucket
    } else if is_get && str_compare(path, "/ping") == KeyOrder::Equal {
        Route::Ping
    } else if is_get && str_compare(path, "/api/v2/read") == KeyOrder::Equal {
        Route::Read
    } else {
        Route::NotFound
    }
}

/// Whether adding `chunk` bytes to a body of `len` bytes would exceed
/// the accepted request size.
pub fn exceeds_max_body(len: usize, chunk: usize) -> (r: bool)
    ensures
        r <==> len + chunk > MAX_SIZE,
{
    chunk > MAX_SIZE || len > MAX_SIZE - chunk
}

/// Checks the request's content encoding: only `gzip` asks for
/// decompression; anything else is refused.
pub fn validate_content_encoding(encoding: &str) -> (r: Result<bool, ApplicationError>)
    ensures
        r is Ok <==> encoding@ == "gzip"@,
        r matches Ok(b) ==> b,
        r matches Err(e) ==> e matches ApplicationError::InvalidContentEncoding {
            content_encoding,
        } && content_encoding@ == encoding@,
{
    if str_compare(encoding, "gzip") == KeyOrder::Equal {
        Ok(true)
    } else {
        Err(
            ApplicationError::InvalidContentEncoding {
                content_encoding: String::from_str(encoding),
            },
        )
    }
}

/// The database name for an org and bucket: `org_bucket`.
pub fn org_and_bucket_to_database(org: &str, bucket: &str) -> (r: String)
    ensures
        r@ == org@ + "_"@ + bucket@,
{
    String::from_str(org).concat("_").concat(bucket)
}

/// An in-memory buffer that a snapshot file is rendered into before it
/// is handed to the object store.
#[derive(Debug)]
pub struct MemWriter {
    pub mem: Vec<u8>,
}

impl MemWriter {
    /// An empty buffer.
    pub fn new() -> (w: MemWriter)
        ensures
            w.mem@.len() == 0,
    {
        MemWriter { mem: Vec::new() }
    }

    /// Appends rendered bytes to the buffer.
    pub fn write_bytes(&mut self, buf: &[u8])
        ensures
            final(self).mem@ == old(self).mem@ + buf@,
    {
        let mut i: usize = 0;
        let n = buf.len();
        while i < n
            invariant
                i <= n,
                n == buf@.len(),
                self.mem@ == old(self).mem@ + buf@.take(i as int),
            decreases n - i,
        {
            self.mem.push(buf[i]);
            proof {
                assert(old(self).mem@ + buf@.take(i as int + 1) =~= (old(self).mem@ + buf@.take(
                    i as int,
                )).push(buf@[i as int]));
            }
            i = i + 1;
        }
        proof {
            assert(buf@.take(n as int) =~= buf@);
        }
    }

    /// Takes the rendered bytes out of the buffer. The buffer is owned
    /// here, so the contents are always returned.
    pub fn into_inner(self) -> (r: Option<Vec<u8>>)
        ensures
            r == Some(self.mem),
    {
        Some(self.mem)
    }
}

} // verus!
