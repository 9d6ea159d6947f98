//! Route patterns compiled into segment sequences and query pairs.
use vstd::prelude::*;

use crate::escape::{decoded, unescape_str, EscapeError};
use crate::text::{chars_of, find_from, first_index, same_chars, split_on, string_of};

verus! {

/// One component of a compiled route pattern.
#[derive(Debug, Clone, PartialEq, Eq)]
pub enum PathSegment {
    /// Matches exactly this path component.
    Literal(String),
    /// Matches whatever remains of the path.
    Wildcard,
}

/// `seg` is the segment that the decoded piece `d` compiles to.
pub open spec fn segment_is(seg: PathSegment, d: Seq<char>) -> bool {
    if d == seq!['*'] {
        seg is Wildcard
    } else {
        seg is Literal && seg->Literal_0@ == d
    }
}

/// `segs` is `prior` followed by the segments that the decoded pieces `ds` compile to.
pub open spec fn extends_with(prior: Seq<PathSegment>, segs: Seq<PathSegment>, ds: Seq<Seq<char>>) -> bool {
    &&& segs.len() == prior.len() + ds.len()
    &&& forall|i: int| 0 <= i < prior.len() ==> #[trigger] segs[i] == prior[i]
    &&& forall|i: int|
        0 <= i < ds.len() ==> segment_is(#[trigger] segs[prior.len() + i], ds[i])
}

/// Decodes each piece in order, stopping at the first error.
pub open spec fn decode_all(ps: Seq<Seq<char>>) -> Result<Seq<Seq<char>>, EscapeError>
    decreases ps.len(),
{
    if ps.len() == 0 {
        Ok(Seq::empty())
    } else {
        match decoded(ps[0]) {
            Err(e) => Err(e),
            Ok(d) => match decode_all(ps.drop_first()) {
                Ok(r) => Ok(seq![d] + r),
                Err(e) => Err(e),
            },
        }
    }
}

/// The key and the value text of a query token `key=value` (no `=`: an empty value).
pub open spec fn token_key(t: Seq<char>) -> Seq<char> {
    t.subrange(0, first_index(t, '=') as int)
}

pub open spec fn token_value(t: Seq<char>) -> Seq<char> {
    let i = first_index(t, '=');
    if i < t.len() {
        t.subrange(i as int + 1, t.len() as int)
    } else {
        Seq::empty()
    }
}

/// Decodes the non-empty query tokens into key/value pairs, stopping at the first error.
pub open spec fn decode_query(ts: Seq<Seq<char>>) -> Result<Seq<(Seq<char>, Seq<char>)>, EscapeError>
    decreases ts.len(),
{
    if ts.len() == 0 {
        Ok(Seq::empty())
    } else if ts[0].len() == 0 {
        decode_query(ts.drop_first())
    } else {
        match decoded(token_key(ts[0])) {
            Err(e) => Err(e),
            Ok(k) => match decoded(token_value(ts[0])) {
                Err(e) => Err(e),
                Ok(v) => match decode_query(ts.drop_first()) {
                    Ok(r) => Ok(seq![(k, v)] + r),
                    Err(e) => Err(e),
                },
            },
        }
    }
}

/// The path part of a pattern: everything before the first `?`.
pub open spec fn pattern_path(s: Seq<char>) -> Seq<char> {
    s.subrange(0, first_index(s, '?') as int)
}

/// The query part of a pattern: everything after the first `?`, if any.
pub open spec fn pattern_query(s: Seq<char>) -> Seq<char> {
    let i = first_index(s, '?');
    if i < s.len() {
        s.subrange(i as int + 1, s.len() as int)
    } else {
        Seq::empty()
    }
}

/// The decoded path pieces and query pairs of pattern `s`, or the first decoding error.
pub open spec fn compiled(s: Seq<char>) -> Result<
    (Seq<Seq<char>>, Seq<(Seq<char>, Seq<char>)>),
    EscapeError,
> {
    match decode_all(split_on(pattern_path(s), '/')) {
        Err(e) => Err(e),
        Ok(ds) => match decode_query(split_on(pattern_query(s), '&')) {
            Err(e) => Err(e),
            Ok(qs) => Ok((ds, qs)),
        },
    }
}

/// The characters of each query pair.
pub open spec fn pairs_view(q: Seq<(String, String)>) -> Seq<(Seq<char>, Seq<char>)> {
    q.map_values(|p: (String, String)| (p.0@, p.1@))
}

/// The value that the pairs `q` give key `k`: a later pair overrides an earlier one.
pub open spec fn query_lookup(q: Seq<(Seq<char>, Seq<char>)>, k: Seq<char>) -> Option<Seq<char>>
    decreases q.len(),
{
    if q.len() == 0 {
        None
    } else if q.last().0 == k {
        Some(q.last().1)
    } else {
        query_lookup(q.drop_last(), k)
    }
}

impl PathSegment {
    /// `*` is the wildcard; any other text is a literal.
    pub fn from(seg: String) -> (r: PathSegment)
        ensures
            segment_is(r, seg@),
    {
        let v = chars_of(seg.as_str());
        assert(v@.subrange(0, v.len() as int) =~= v@);
        if same_chars("*", &v, 0, v.len()) {
            proof {
                reveal_strlit("*");
                assert("*"@ =~= seq!['*']);
            }
            PathSegment::Wildcard
        } else {
            proof {
                reveal_strlit("*");
                assert("*"@ =~= seq!['*']);
            }
            PathSegment::Literal(seg)
        }
    }
}

/// A compiled route: its segments, and its query pairs in pattern order.
#[derive(Debug, Clone, PartialEq, Eq)]
pub struct RoutePathObject {
    pub path: Vec<PathSegment>,
    pub query: Vec<(String, String)>,
}

/// The catch-all route, a single wildcard.
pub struct DefaultRoute;

impl DefaultRoute {
    pub fn to_path_object(self) -> (r: RoutePathObject)
        ensures
            r.path@.len() == 1,
            r.path@[0] is Wildcard,
            r.query@.len() == 0,
    {
        RoutePathObject::new(vec![PathSegment::Wildcard], Vec::new())
    }
}

/// Decoded pieces `done` followed by what the rest decodes to; an error passes through.
pub open spec fn after_all(done: Seq<Seq<char>>, rest: Result<Seq<Seq<char>>, EscapeError>) -> Result<
    Seq<Seq<char>>,
    EscapeError,
> {
    match rest {
        Ok(ds) => Ok(done + ds),
        Err(e) => Err(e),
    }
}

/// Decoded pairs `done` followed by what the rest decodes to; an error passes through.
pub open spec fn after_pairs(
    done: Seq<(Seq<char>, Seq<char>)>,
    rest: Result<Seq<(Seq<char>, Seq<char>)>, EscapeError>,
) -> Result<Seq<(Seq<char>, Seq<char>)>, EscapeError> {
    match rest {
        Ok(qs) => Ok(done + qs),
        Err(e) => Err(e),
    }
}

/// Decodes the pieces of `v[0..to]` between `/`s into segments.
fn decode_segments(v: &Vec<char>, to: usize) -> (r: Result<Vec<PathSegment>, EscapeError>)
    requires
        to <= v.len(),
    ensures
        match decode_all(split_on(v@.subrange(0, to as int), '/')) {
            Ok(ds) => r is Ok && extends_with(Seq::empty(), r->Ok_0@, ds),
            Err(e) => r == Err::<Vec<PathSegment>, EscapeError>(e),
        },
{
    let mut out: Vec<PathSegment> = Vec::new();
    let ghost mut done: Seq<Seq<char>> = Seq::empty();
    let mut from: usize = 0;
    let ghost whole = decode_all(split_on(v@.subrange(0, to as int), '/'));
    assert(whole == after_all(done, whole)) by {
        if let Ok(ds) = whole {
            assert(done + ds =~= ds);
        }
    }
    loop
        invariant
            from <= to <= v.len(),
            whole == decode_all(split_on(v@.subrange(0, to as int), '/')),
            whole == after_all(done, decode_all(split_on(v@.subrange(from as int, to as int), '/'))),
            extends_with(Seq::empty(), out@, done),
        decreases to - from,
    {
        let ghost s = v@.subrange(from as int, to as int);
        let ghost pieces = split_on(s, '/');
        let end = find_from(v, '/', from, to);
        let piece = string_of(v, from, end);
        assert(piece@ =~= s.subrange(0, first_index(s, '/') as int));
        assert(pieces[0] == piece@);
        let d = match unescape_str(piece.as_str()) {
            Ok(d) => d,
            Err(e) => {
                return Err(e);
            },
        };
        let ghost prior = out@;
        out.push(PathSegment::from(d));
        proof {
            let done2 = done.push(d@);
            assert forall|i: int| 0 <= i < done2.len() implies segment_is(
                #[trigger] out@[Seq::<PathSegment>::empty().len() + i],
                done2[i],
            ) by {
                if i < done.len() {
                    assert(out@[i] == prior[i]);
                    assert(segment_is(prior[Seq::<PathSegment>::empty().len() + i], done[i]));
                }
            }
        }
        if end == to {
            proof {
                assert(pieces =~= seq![s]);
                assert(pieces.drop_first().len() == 0);
                assert(decode_all(pieces.drop_first()) == Ok::<Seq<Seq<char>>, EscapeError>(
                    Seq::empty(),
                ));
                assert(done + (seq![d@] + Seq::<Seq<char>>::empty()) =~= done.push(d@));
                done = done.push(d@);
            }
            return Ok(out);
        }
        proof {
            let r2 = v@.subrange(end + 1, to as int);
            assert(s.subrange(first_index(s, '/') as int + 1, s.len() as int) =~= r2);
            assert(pieces.drop_first() =~= split_on(r2, '/'));
            if let Ok(ds) = decode_all(split_on(r2, '/')) {
                assert(done + (seq![d@] + ds) =~= done.push(d@) + ds);
            }
            done = done.push(d@);
        }
        from = end + 1;
    }
}

/// Decodes the non-empty `&`-separated tokens of `v[from..to]` into pairs.
pub(crate) fn decode_tokens(v: &Vec<char>, from: usize, to: usize) -> (r: Result<
    Vec<(String, String)>,
    EscapeError,
>)
    requires
        from <= to <= v.len(),
    ensures
        match decode_query(split_on(v@.subrange(from as int, to as int), '&')) {
            Ok(qs) => r is Ok && pairs_view(r->Ok_0@) == qs,
            Err(e) => r == Err::<Vec<(String, String)>, EscapeError>(e),
        },
{
    let mut out: Vec<(String, String)> = Vec::new();
    let mut at = from;
    let ghost whole = decode_query(split_on(v@.subrange(from as int, to as int), '&'));
    assert(pairs_view(out@) =~= Seq::empty());
    assert(whole == after_pairs(pairs_view(out@), whole)) by {
        if let Ok(qs) = whole {
            assert(pairs_view(out@) + qs =~= qs);
        }
    }
    loop
        invariant
            from <= at <= to <= v.len(),
            whole == decode_query(split_on(v@.subrange(from as int, to as int), '&')),
            whole == after_pairs(
                pairs_view(out@),
                decode_query(split_on(v@.subrange(at as int, to as int), '&')),
            ),
        decreases to - at,
    {
        let ghost s = v@.subrange(at as int, to as int);
        let ghost pieces = split_on(s, '&');
        let end = find_from(v, '&', at, to);
        let ghost t = s.subrange(0, first_index(s, '&') as int);
        assert(t =~= v@.subrange(at as int, end as int));
        assert(pieces[0] == t);
        let ghost before = pairs_view(out@);
        let ghost rest = decode_query(pieces.drop_first());
        if end > at {
            let eq = find_from(v, '=', at, end);
            let key = string_of(v, at, eq);
            assert(key@ =~= token_key(t));
            let k = match unescape_str(key.as_str()) {
                Ok(k) => k,
                Err(e) => {
                    return Err(e);
                },
            };
            let value = if eq < end {
                string_of(v, eq + 1, end)
            } else {
                String::new()
            };
            assert(value@ =~= token_value(t));
            let w = match unescape_str(value.as_str()) {
                Ok(w) => w,
                Err(e) => {
                    return Err(e);
                },
            };
            out.push((k, w));
            assert(pairs_view(out@) =~= before.push((k@, w@)));
            proof {
                if let Ok(qs) = rest {
                    assert(before + (seq![(k@, w@)] + qs) =~= pairs_view(out@) + qs);
                }
            }
        } else {
            assert(t.len() == 0);
        }
        assert(whole == after_pairs(pairs_view(out@), rest));
        if end == to {
            proof {
                assert(pieces =~= seq![s]);
                assert(pieces.drop_first().len() == 0);
                assert(pairs_view(out@) + Seq::<(Seq<char>, Seq<char>)>::empty() =~= pairs_view(
                    out@,
                ));
            }
            return Ok(out);
        }
        proof {
            let r2 = v@.subrange(end + 1, to as int);
            assert(s.subrange(first_index(s, '&') as int + 1, s.len() as int) =~= r2);
            assert(pieces.drop_first() =~= split_on(r2, '&'));
        }
        at = end + 1;
    }
}

impl RoutePathObject {
    pub fn new(path: Vec<PathSegment>, query: Vec<(String, String)>) -> (r: RoutePathObject)
        ensures
            r.path == path,
            r.query == query,
    {
        RoutePathObject { path, query }
    }

    pub fn path(&self) -> (r: &Vec<PathSegment>)
        ensures
            *r == self.path,
    {
        &self.path
    }

    pub fn query(&self) -> (r: &Vec<(String, String)>)
        ensures
            *r == self.query,
    {
        &self.query
    }

    /// The query value for `key`, reading the pairs as a mapping.
    pub fn query_value(&self, key: &str) -> (r: Option<String>)
        ensures
            match query_lookup(pairs_view(self.query@), key@) {
                Some(v) => r is Some && r->0@ == v,
                None => r is None,
            },
    {
        let ghost pv = pairs_view(self.query@);
        let mut i = self.query.len();
        assert(pv.subrange(0, i as int) =~= pv);
        while i > 0
            invariant
                i <= self.query.len(),
                pv == pairs_view(self.query@),
                query_lookup(pv, key@) == query_lookup(pv.subrange(0, i as int), key@),
            decreases i,
        {
            let k = chars_of(self.query[i - 1].0.as_str());
            assert(k@.subrange(0, k.len() as int) =~= k@);
            let ghost sub = pv.subrange(0, i as int);
            assert(sub.last() == (self.query@[i - 1].0@, self.query@[i - 1].1@));
            if same_chars(key, &k, 0, k.len()) {
                return Some(self.query[i - 1].1.clone());
            }
            assert(sub.drop_last() =~= pv.subrange(0, i - 1));
            i = i - 1;
        }
        None
    }

    /// A copy with equal segments and query pairs.
    pub fn duplicate(&self) -> (r: RoutePathObject)
        ensures
            r.path@ == self.path@,
            r.query@ == self.query@,
    {
        let mut path: Vec<PathSegment> = Vec::new();
        for i in 0..self.path.len()
            invariant
                path@ == self.path@.subrange(0, i as int),
        {
            let seg = match &self.path[i] {
                PathSegment::Literal(t) => PathSegment::Literal(t.clone()),
                PathSegment::Wildcard => PathSegment::Wildcard,
            };
            path.push(seg);
            assert(path@ =~= self.path@.subrange(0, i + 1));
        }
        let mut query: Vec<(String, String)> = Vec::new();
        for i in 0..self.query.len()
            invariant
                query@ == self.query@.subrange(0, i as int),
        {
            let (k, v) = &self.query[i];
            query.push((k.clone(), v.clone()));
            assert(query@ =~= self.query@.subrange(0, i + 1));
        }
        assert(path@ =~= self.path@);
        assert(query@ =~= self.query@);
        RoutePathObject { path, query }
    }

    /// Compiles a route pattern: the part before `?` split on `/` into decoded
    /// segments (`*` is the wildcard), the part after it split on `&` into decoded
    /// `key=value` pairs.
    pub fn parse(pattern: &str) -> (r: Result<RoutePathObject, EscapeError>)
        ensures
            match compiled(pattern@) {
                Ok((ds, qs)) => r is Ok && extends_with(Seq::empty(), r->Ok_0.path@, ds) && pairs_view(
                    r->Ok_0.query@,
                ) == qs,
                Err(e) => r == Err::<RoutePathObject, EscapeError>(e),
            },
    {
        let v = chars_of(pattern);
        let q = find_from(&v, '?', 0, v.len());
        assert(v@.subrange(0, v.len() as int) =~= pattern@);
        assert(v@.subrange(0, q as int) =~= pattern_path(pattern@));
        let path = match decode_segments(&v, q) {
            Ok(path) => path,
            Err(e) => {
                return Err(e);
            },
        };
        let from = if q < v.len() {
            q + 1
        } else {
            q
        };
        assert(v@.subrange(from as int, v.len() as int) =~= pattern_query(pattern@));
        let query = match decode_tokens(&v, from, v.len()) {
            Ok(query) => query,
            Err(e) => {
                return Err(e);
            },
        };
        Ok(RoutePathObject::new(path, query))
    }
}

} // verus!
