//! Responses, their status lines, and a builder that checks required fields.
use vstd::prelude::*;

use vstd::string::StringExecFns;

verus! {

/// A response status.
#[derive(Debug, Clone, PartialEq, Eq)]
pub enum Status {
    OK,
    Forbidden,
    NotFound,
    Custom(usize, String),
}

pub open spec fn status_code(s: Status) -> usize {
    match s {
        Status::OK => 200,
        Status::Forbidden => 403,
        Status::NotFound => 404,
        Status::Custom(code, _) => code,
    }
}

pub open spec fn status_message(s: Status) -> Seq<char> {
    match s {
        Status::OK => "Ok"@,
        Status::Forbidden => "Forbidden"@,
        Status::NotFound => "Not Found"@,
        Status::Custom(_, m) => m@,
    }
}

impl Status {
    /// The numeric status code.
    pub fn code(&self) -> (r: usize)
        ensures
            r == status_code(*self),
    {
        match self {
            Status::OK => 200,
            Status::Forbidden => 403,
            Status::NotFound => 404,
            Status::Custom(code, _) => *code,
        }
    }

    /// The reason phrase.
    pub fn message(&self) -> (r: String)
        ensures
            r@ == status_message(*self),
    {
        match self {
            Status::OK => String::from_str("Ok"),
            Status::Forbidden => String::from_str("Forbidden"),
            Status::NotFound => String::from_str("Not Found"),
            Status::Custom(_, m) => m.clone(),
        }
    }
}

/// The protocol version written on the status line.
#[derive(Debug, Clone, Copy, PartialEq, Eq, Structural)]
pub enum HttpVersion {
    Http1_1,
}

impl HttpVersion {
    pub fn to_string(&self) -> (r: String)
        ensures
            r@ == "HTTP/1.1"@,
    {
        match self {
            HttpVersion::Http1_1 => String::from_str("HTTP/1.1"),
        }
    }
}

/// A finished response: status, header pairs and body text.
#[derive(Debug, Clone)]
pub struct HttpResponse {
    pub status: Status,
    pub headers: Vec<(String, String)>,
    pub body: String,
}

impl HttpResponse {
    pub fn new(status: Status, headers: Vec<(String, String)>, body: String) -> (r: HttpResponse)
        ensures
            r.status == status,
            r.headers == headers,
            r.body == body,
    {
        HttpResponse { status, headers, body }
    }

    pub fn status(&self) -> (r: &Status)
        ensures
            *r == self.status,
    {
        &self.status
    }

    pub fn headers(&self) -> (r: &Vec<(String, String)>)
        ensures
            *r == self.headers,
    {
        &self.headers
    }

    pub fn body(&self) -> (r: &String)
        ensures
            *r == self.body,
    {
        &self.body
    }
}

/// A field that a response cannot be built without.
#[derive(Debug, Clone, Copy, PartialEq, Eq, Structural)]
pub enum ResponseField {
    Status,
    Body,
}

/// Why a response builder could not build.
#[derive(Debug, Clone, Copy, PartialEq, Eq, Structural)]
pub enum BuildError {
    MissingField(ResponseField),
}

/// Collects a status, headers and a body; `build` checks that status and body were given.
pub struct HttpResponseBuilder {
    pub status: Option<Status>,
    pub headers: Vec<(String, String)>,
    pub body: Option<String>,
}

impl HttpResponseBuilder {
    pub fn new() -> (r: HttpResponseBuilder)
        ensures
            r.status is None,
            r.headers@.len() == 0,
            r.body is None,
    {
        HttpResponseBuilder { status: None, headers: Vec::new(), body: None }
    }

    /// Adds a header pair after those given so far.
    pub fn header(self, key: String, value: String) -> (r: HttpResponseBuilder)
        ensures
            r.status == self.status,
            r.body == self.body,
            r.headers@ == self.headers@.push((key, value)),
    {
        let mut b = self;
        b.headers.push((key, value));
        b
    }

    pub fn status(self, status: Status) -> (r: HttpResponseBuilder)
        ensures
            r.status == Some(status),
            r.headers == self.headers,
            r.body == self.body,
    {
        HttpResponseBuilder { status: Some(status), headers: self.headers, body: self.body }
    }

    pub fn body(self, body: String) -> (r: HttpResponseBuilder)
        ensures
            r.status == self.status,
            r.headers == self.headers,
            r.body == Some(body),
    {
        HttpResponseBuilder { status: self.status, headers: self.headers, body: Some(body) }
    }

    /// The response, or the first missing field (status before body).
    pub fn build(self) -> (r: Result<HttpResponse, BuildError>)
        ensures
            self.status is None ==> r == Err::<HttpResponse, BuildError>(
                BuildError::MissingField(ResponseField::Status),
            ),
            self.status is Some && self.body is None ==> r == Err::<HttpResponse, BuildError>(
                BuildError::MissingField(ResponseField::Body),
            ),
            self.status is Some && self.body is Some ==> r is Ok && r->Ok_0.status
                == self.status->0 && r->Ok_0.body == self.body->0 && r->Ok_0.headers
                == self.headers,
    {
        match (self.status, self.body) {
            (None, _) => Err(BuildError::MissingField(ResponseField::Status)),
            (Some(_), None) => Err(BuildError::MissingField(ResponseField::Body)),
            (Some(status), Some(body)) => Ok(HttpResponse::new(status, self.headers, body)),
        }
    }
}

} // verus!
