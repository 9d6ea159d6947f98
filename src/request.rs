//! The request that the router reads.
use vstd::prelude::*;

use crate::escape::EscapeError;
use crate::query::{target_parts, QueryPath};
use crate::route::pairs_view;
use crate::text::{chars_of, first_index, find_from, same_chars, string_of};

verus! {

/// The request methods the router distinguishes.
#[derive(Debug, Clone, Copy, PartialEq, Eq, Structural)]
pub enum Method {
    GET,
    POST,
    PUT,
    DELETE,
    HEAD,
    OPTIONS,
    PATCH,
}

/// The method whose name is exactly `s`, if any.
pub open spec fn method_named(s: Seq<char>) -> Option<Method> {
    if s == "GET"@ {
        Some(Method::GET)
    } else if s == "POST"@ {
        Some(Method::POST)
    } else if s == "PUT"@ {
        Some(Method::PUT)
    } else if s == "DELETE"@ {
        Some(Method::DELETE)
    } else if s == "HEAD"@ {
        Some(Method::HEAD)
    } else if s == "OPTIONS"@ {
        Some(Method::OPTIONS)
    } else if s == "PATCH"@ {
        Some(Method::PATCH)
    } else {
        None
    }
}

impl Method {
    /// The method named `string` (upper case), or `None` for any other verb.
    pub fn from_str(string: &str) -> (r: Option<Method>)
        ensures
            r == method_named(string@),
    {
        let v = chars_of(string);
        let n = v.len();
        assert(v@.subrange(0, n as int) =~= string@);
        if same_chars("GET", &v, 0, n) {
            Some(Method::GET)
        } else if same_chars("POST", &v, 0, n) {
            Some(Method::POST)
        } else if same_chars("PUT", &v, 0, n) {
            Some(Method::PUT)
        } else if same_chars("DELETE", &v, 0, n) {
            Some(Method::DELETE)
        } else if same_chars("HEAD", &v, 0, n) {
            Some(Method::HEAD)
        } else if same_chars("OPTIONS", &v, 0, n) {
            Some(Method::OPTIONS)
        } else if same_chars("PATCH", &v, 0, n) {
            Some(Method::PATCH)
        } else {
            None
        }
    }
}

/// A decoded request: method, path, query pairs, header pairs and body.
pub struct HttpRequest {
    pub method: Method,
    pub path: String,
    pub query: Vec<(String, String)>,
    pub headers: Vec<(String, String)>,
    pub body: Vec<u8>,
}

impl HttpRequest {
    pub fn new(
        method: Method,
        path: String,
        query: Vec<(String, String)>,
        headers: Vec<(String, String)>,
        body: Vec<u8>,
    ) -> (r: HttpRequest)
        ensures
            r.method == method,
            r.path == path,
            r.query == query,
            r.headers == headers,
            r.body == body,
    {
        HttpRequest { method, path, query, headers, body }
    }

    /// The same request with path `path`: method, query, headers and body are kept.
    pub fn with_path(&self, path: String) -> (r: HttpRequest)
        ensures
            r.method == self.method,
            r.path == path,
            r.query@ == self.query@,
            r.headers@ == self.headers@,
            r.body@ == self.body@,
    {
        let mut body: Vec<u8> = Vec::new();
        for i in 0..self.body.len()
            invariant
                body@ == self.body@.subrange(0, i as int),
        {
            body.push(self.body[i]);
            assert(body@ =~= self.body@.subrange(0, i + 1));
        }
        assert(body@ =~= self.body@);
        HttpRequest {
            method: self.method,
            path,
            query: copy_pairs(&self.query),
            headers: copy_pairs(&self.headers),
            body,
        }
    }

    pub fn method(&self) -> (r: &Method)
        ensures
            *r == self.method,
    {
        &self.method
    }

    pub fn path(&self) -> (r: &String)
        ensures
            *r == self.path,
    {
        &self.path
    }

    pub fn query(&self) -> (r: &Vec<(String, String)>)
        ensures
            *r == self.query,
    {
        &self.query
    }

    pub fn headers(&self) -> (r: &Vec<(String, String)>)
        ensures
            *r == self.headers,
    {
        &self.headers
    }

    pub fn body(&self) -> (r: &Vec<u8>)
        ensures
            *r == self.body,
    {
        &self.body
    }
}

/// A copy of the pairs `v`.
fn copy_pairs(v: &Vec<(String, String)>) -> (r: Vec<(String, String)>)
    ensures
        r@ == v@,
{
    let mut r: Vec<(String, String)> = Vec::new();
    for i in 0..v.len()
        invariant
            r@ == v@.subrange(0, i as int),
    {
        let (k, w) = &v[i];
        r.push((k.clone(), w.clone()));
        assert(r@ =~= v@.subrange(0, i + 1));
    }
    assert(r@ =~= v@);
    r
}

/// Why a request head could not be read.
#[derive(Debug, Clone, Copy, PartialEq, Eq, Structural)]
pub enum RequestError {
    /// The status line lacks the spaces around the target.
    MalformedStatusLine,
    /// The method is not one the router knows.
    UnknownMethod,
    /// The target holds a bad percent-escape.
    BadEscape(EscapeError),
    /// A header line has no `": "` between name and value.
    MalformedHeader,
}

/// Index of the last `c` in `s`, or -1.
pub open spec fn last_index(s: Seq<char>, c: char) -> int
    decreases s.len(),
{
    if s.len() == 0 {
        -1
    } else if s.last() == c {
        s.len() - 1
    } else {
        last_index(s.drop_last(), c)
    }
}

/// Index of the first `": "` in `h` at or after `k`, or `h.len()`.
pub open spec fn header_sep(h: Seq<char>, k: int) -> int
    decreases h.len() - k,
{
    if k < 0 || k + 1 >= h.len() {
        h.len() as int
    } else if h[k] == ':' && h[k + 1] == ' ' {
        k
    } else {
        header_sep(h, k + 1)
    }
}

/// The name and value of each header line, or `None` when one lacks `": "`.
pub open spec fn header_pairs(hs: Seq<String>) -> Option<Seq<(Seq<char>, Seq<char>)>>
    decreases hs.len(),
{
    if hs.len() == 0 {
        Some(Seq::empty())
    } else {
        let h = hs.last()@;
        let k = header_sep(h, 0);
        match header_pairs(hs.drop_last()) {
            None => None,
            Some(prior) => if k >= h.len() {
                None
            } else {
                Some(prior.push((h.subrange(0, k), h.subrange(k + 2, h.len() as int))))
            },
        }
    }
}

/// What a status line `METHOD SP target SP version` and header lines say:
/// the method, the decoded target and the header pairs, or the first fault.
pub open spec fn request_head(status: Seq<char>, hs: Seq<String>) -> Result<
    (Method, Seq<char>, Seq<(Seq<char>, Seq<char>)>, Seq<(Seq<char>, Seq<char>)>),
    RequestError,
> {
    let i = first_index(status, ' ');
    let rest = status.subrange(i as int + 1, status.len() as int);
    let li = last_index(rest, ' ');
    if i >= status.len() || li < 0 {
        Err(RequestError::MalformedStatusLine)
    } else if method_named(status.subrange(0, i as int)) is None {
        Err(RequestError::UnknownMethod)
    } else {
        match target_parts(rest.subrange(0, li)) {
            Err(e) => Err(RequestError::BadEscape(e)),
            Ok((p, q)) => match header_pairs(hs) {
                None => Err(RequestError::MalformedHeader),
                Some(h) => Ok((method_named(status.subrange(0, i as int))->0, p, q, h)),
            },
        }
    }
}

/// Index of the last `c` in `v[from..to]`, or `None`.
fn rfind(v: &Vec<char>, c: char, from: usize, to: usize) -> (r: Option<usize>)
    requires
        from <= to <= v.len(),
    ensures
        last_index(v@.subrange(from as int, to as int), c) < 0 ==> r is None,
        last_index(v@.subrange(from as int, to as int), c) >= 0 ==> (r matches Some(k) && k == from
            + last_index(v@.subrange(from as int, to as int), c)),
        r matches Some(k) ==> from <= k < to,
{
    let mut k = to;
    while k > from
        invariant
            from <= k <= to <= v.len(),
            last_index(v@.subrange(from as int, to as int), c) == last_index(
                v@.subrange(from as int, k as int),
                c,
            ),
        decreases k - from,
    {
        assert(v@.subrange(from as int, k as int).last() == v@[k - 1]);
        if v[k - 1] == c {
            return Some(k - 1);
        }
        assert(v@.subrange(from as int, k as int).drop_last() =~= v@.subrange(
            from as int,
            k - 1,
        ));
        k = k - 1;
    }
    assert(v@.subrange(from as int, k as int).len() == 0);
    None
}

/// Splits a header line at its first `": "`.
fn split_header(line: &String) -> (r: Option<(String, String)>)
    ensures
        header_sep(line@, 0) >= line@.len() ==> r is None,
        header_sep(line@, 0) < line@.len() ==> (r matches Some((name, value)) && name@
            == line@.subrange(0, header_sep(line@, 0)) && value@ == line@.subrange(
            header_sep(line@, 0) + 2,
            line@.len() as int,
        )),
{
    let v = chars_of(line.as_str());
    if v.len() < 2 {
        return None;
    }
    let mut k: usize = 0;
    while k < v.len() - 1 && !(v[k] == ':' && v[k + 1] == ' ')
        invariant
            v@ == line@,
            v.len() >= 2,
            k <= v.len() - 1,
            header_sep(line@, 0) == header_sep(line@, k as int),
        decreases v.len() - k,
    {
        k = k + 1;
    }
    if k >= v.len() - 1 {
        return None;
    }
    Some((string_of(&v, 0, k), string_of(&v, k + 2, v.len())))
}

impl HttpRequest {
    /// Reads a request head: the status line and the header lines. The request
    /// carries the decoded target path and query, the header pairs in order, and
    /// an empty body.
    pub fn parse_request(status_line: &str, header_lines: &Vec<String>) -> (r: Result<HttpRequest, RequestError>)
        ensures
            match request_head(status_line@, header_lines@) {
                Ok((m, p, q, h)) => r is Ok && r->Ok_0.method == m && r->Ok_0.path@ == p
                    && pairs_view(r->Ok_0.query@) == q && pairs_view(r->Ok_0.headers@) == h
                    && r->Ok_0.body@.len() == 0,
                Err(e) => r == Err::<HttpRequest, RequestError>(e),
            },
    {
        let v = chars_of(status_line);
        let n = v.len();
        assert(v@.subrange(0, n as int) =~= status_line@);
        let i = find_from(&v, ' ', 0, n);
        if i == n {
            return Err(RequestError::MalformedStatusLine);
        }
        let ghost rest = status_line@.subrange(i + 1, n as int);
        assert(v@.subrange(i + 1, n as int) =~= rest);
        let li = match rfind(&v, ' ', i + 1, n) {
            Some(li) => li,
            None => {
                return Err(RequestError::MalformedStatusLine);
            },
        };
        let name = string_of(&v, 0, i);
        let method = match Method::from_str(name.as_str()) {
            Some(m) => m,
            None => {
                return Err(RequestError::UnknownMethod);
            },
        };
        let target = string_of(&v, i + 1, li);
        let ghost lr = last_index(rest, ' ');
        assert(li == i + 1 + lr);
        assert(target@ =~= rest.subrange(0, lr));
        let parts = match QueryPath::parse(target.as_str()) {
            Ok(parts) => parts,
            Err(e) => {
                return Err(RequestError::BadEscape(e));
            },
        };
        let mut headers: Vec<(String, String)> = Vec::new();
        let mut j: usize = 0;
        let ghost head = match header_pairs(header_lines@) {
            None => Err(RequestError::MalformedHeader),
            Some(h) => Ok((method, parts.path@, pairs_view(parts.query@), h)),
        };
        assert(request_head(status_line@, header_lines@) == head);
        while j < header_lines.len()
            invariant
                request_head(status_line@, header_lines@) == head,
                head == match header_pairs(header_lines@) {
                    None => Err(RequestError::MalformedHeader),
                    Some(h) => Ok((method, parts.path@, pairs_view(parts.query@), h)),
                },
                j <= header_lines.len(),
                header_pairs(header_lines@.subrange(0, j as int)) == Some(pairs_view(headers@)),
            decreases header_lines.len() - j,
        {
            assert(header_lines@.subrange(0, j + 1).drop_last() =~= header_lines@.subrange(0, j as int));
            assert(header_lines@.subrange(0, j + 1).last() == header_lines@[j as int]);
            match split_header(&header_lines[j]) {
                Some(pair) => {
                    headers.push(pair);
                    assert(pairs_view(headers@) =~= pairs_view(headers@.drop_last()).push(
                        (pair.0@, pair.1@),
                    ));
                    assert(headers@.drop_last() =~= headers@.subrange(0, headers@.len() - 1));
                },
                None => {
                    proof {
                        lemma_header_pairs_none(header_lines@, j as int);
                    }
                    return Err(RequestError::MalformedHeader);
                },
            }
            j = j + 1;
        }
        assert(header_lines@.subrange(0, j as int) =~= header_lines@);
        Ok(HttpRequest::new(method, parts.path, parts.query, headers, Vec::new()))
    }
}

/// A header line without `": "` makes the whole header list unreadable.
proof fn lemma_header_pairs_none(hs: Seq<String>, j: int)
    requires
        0 <= j < hs.len(),
        header_sep(hs[j]@, 0) >= hs[j]@.len(),
    ensures
        header_pairs(hs) is None,
    decreases hs.len(),
{
    if j < hs.len() - 1 {
        assert(hs.drop_last()[j] == hs[j]);
        lemma_header_pairs_none(hs.drop_last(), j);
    }
}

} // verus!
