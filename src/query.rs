//! Request targets: a decoded path and its decoded query pairs.
use vstd::prelude::*;

use crate::escape::{decoded, unescape_str, EscapeError};
use crate::route::{decode_query, decode_tokens, pairs_view, pattern_path, pattern_query};
use crate::text::{chars_of, find_from, split_on, string_of};

verus! {

/// A request target split at the first `?`: the decoded path and the decoded
/// `key=value` pairs of the query, in order.
pub struct QueryPath {
    pub path: String,
    pub query: Vec<(String, String)>,
}

/// The decoded path and query pairs of target `s`, or the first decoding error.
pub open spec fn target_parts(s: Seq<char>) -> Result<(Seq<char>, Seq<(Seq<char>, Seq<char>)>), EscapeError> {
    match decoded(pattern_path(s)) {
        Err(e) => Err(e),
        Ok(p) => match decode_query(split_on(pattern_query(s), '&')) {
            Err(e) => Err(e),
            Ok(q) => Ok((p, q)),
        },
    }
}

impl QueryPath {
    pub fn parse(target: &str) -> (r: Result<QueryPath, EscapeError>)
        ensures
            match target_parts(target@) {
                Ok((p, q)) => r is Ok && r->Ok_0.path@ == p && pairs_view(r->Ok_0.query@) == q,
                Err(e) => r == Err::<QueryPath, EscapeError>(e),
            },
    {
        let v = chars_of(target);
        let q = find_from(&v, '?', 0, v.len());
        assert(v@.subrange(0, v.len() as int) =~= target@);
        let raw = string_of(&v, 0, q);
        assert(raw@ =~= pattern_path(target@));
        let path = match unescape_str(raw.as_str()) {
            Ok(p) => p,
            Err(e) => {
                return Err(e);
            },
        };
        let from = if q < v.len() {
            q + 1
        } else {
            q
        };
        assert(v@.subrange(from as int, v.len() as int) =~= pattern_query(target@));
        let query = match decode_tokens(&v, from, v.len()) {
            Ok(query) => query,
            Err(e) => {
                return Err(e);
            },
        };
        Ok(QueryPath { path, query })
    }
}

} // verus!
