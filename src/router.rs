//! The dispatch tree and the segment-matching search over it.
use vstd::prelude::*;

use crate::request::{HttpRequest, Method};
use crate::response::{HttpResponse, Status};
use crate::route::{PathSegment, RoutePathObject};
use crate::service::{ServeFileService, StaticResponseService};
use crate::text::{chars_of, find_from, first_index, same_chars, string_of};

use vstd::string::StringExecFns;

verus! {

/// The handler a route is bound to. `H` is the type of caller-supplied handlers.
pub enum Service<H> {
    ServeFile(ServeFileService),
    StaticResponse(StaticResponseService),
    Deferred(DeferredRouteService<H>),
    Handler(H),
}

/// Mounts a router under the literal prefix of `path`; the inner router sees
/// the request path with that prefix removed.
pub struct DeferredRouteService<H> {
    pub path: RoutePathObject,
    pub router: Box<Router<H>>,
}

/// The children reached through one literal path component.
pub struct RouteEntry<H> {
    pub key: String,
    pub children: Vec<Router<H>>,
}

/// A node of the dispatch tree.
pub enum Router<H> {
    /// Literal entries, tried in order for a matching component, then the defaults.
    Router { paths: Vec<RouteEntry<H>>, default_services: Vec<Router<H>> },
    /// A service, bound to a method when one is given.
    Service(Option<Method>, Service<H>),
}

/// Why a search below some node produced no service.
#[derive(Debug, Clone, Copy, PartialEq, Eq, Structural)]
pub enum RouteError {
    /// Nothing under the node accepted the request; the caller tries on.
    RouteNotFound,
    /// A mount point was reached by a path that does not begin with its prefix.
    MountMismatch,
}

/// What a search settled on: a service and the offset in the request path at
/// which the path it sees begins, or the not-found answer of a router's root.
pub enum Outcome<H> {
    Serve(Service<H>, int),
    Missing,
}

/// Number of `/` at the start of `s`.
pub open spec fn slash_run(s: Seq<char>) -> nat
    decreases s.len(),
{
    if s.len() > 0 && s[0] == '/' {
        1 + slash_run(s.subrange(1, s.len() as int))
    } else {
        0
    }
}

/// Start of the next component of `p` at or after `pos`: past any slashes.
pub open spec fn segment_start(p: Seq<char>, pos: int) -> int {
    pos + slash_run(p.subrange(pos, p.len() as int))
}

/// End of that component: the next `/` or the end of `p`.
pub open spec fn segment_end(p: Seq<char>, pos: int) -> int {
    let s = segment_start(p, pos);
    s + first_index(p.subrange(s, p.len() as int), '/')
}

/// The characters a mount point strips: each literal segment before the first
/// wildcard, each followed by `/`.
pub open spec fn mount_prefix(segs: Seq<PathSegment>) -> Seq<char>
    decreases segs.len(),
{
    if segs.len() == 0 {
        Seq::empty()
    } else {
        match segs[0] {
            PathSegment::Wildcard => Seq::empty(),
            PathSegment::Literal(t) => t@ + seq!['/'] + mount_prefix(segs.drop_first()),
        }
    }
}

/// The search from node `r` for method `m` over path `p`, where the request path the
/// node's services see begins at `base` and the part still to match begins at `pos`.
pub open spec fn resolve<H>(r: Router<H>, m: Method, p: Seq<char>, base: int, pos: int) -> Result<
    Outcome<H>,
    RouteError,
>
    decreases r, 0int,
{
    match r {
        Router::Router { paths, default_services } => {
            let start = segment_start(p, pos);
            let end = segment_end(p, pos);
            match try_entries(paths, 0, p.subrange(start, end), m, p, base, end) {
                Err(RouteError::RouteNotFound) => try_list(default_services, 0, m, p, base, pos),
                other => other,
            }
        },
        Router::Service(method, service) => {
            if method is Some && method->0 != m {
                Err(RouteError::RouteNotFound)
            } else {
                match service {
                    Service::Deferred(d) => {
                        let mp = mount_prefix(d.path.path@);
                        if base + mp.len() <= p.len() && p.subrange(base, base + mp.len()) == mp {
                            top(*d.router, m, p, base + mp.len())
                        } else {
                            Err(RouteError::MountMismatch)
                        }
                    },
                    _ => Ok(Outcome::Serve(service, base)),
                }
            }
        },
    }
}

/// The search from a router's root: exhaustion becomes the not-found answer.
pub open spec fn top<H>(r: Router<H>, m: Method, p: Seq<char>, base: int) -> Result<
    Outcome<H>,
    RouteError,
>
    decreases r, 1int,
{
    match resolve(r, m, p, base, base) {
        Err(RouteError::RouteNotFound) => Ok(Outcome::Missing),
        other => other,
    }
}

/// Tries `v[i..]` in order; the first that does not report `RouteNotFound` decides.
pub open spec fn try_list<H>(
    v: Vec<Router<H>>,
    i: int,
    m: Method,
    p: Seq<char>,
    base: int,
    pos: int,
) -> Result<Outcome<H>, RouteError>
    decreases v, v.len() - i,
{
    if 0 <= i < v.len() {
        match resolve(v[i], m, p, base, pos) {
            Err(RouteError::RouteNotFound) => try_list(v, i + 1, m, p, base, pos),
            other => other,
        }
    } else {
        Err(RouteError::RouteNotFound)
    }
}

/// Tries the children of entry `e` in order when its key is `key`.
pub open spec fn entry_result<H>(
    e: RouteEntry<H>,
    key: Seq<char>,
    m: Method,
    p: Seq<char>,
    base: int,
    pos: int,
) -> Result<Outcome<H>, RouteError>
    decreases e, 0int,
{
    if e.key@ == key {
        try_list(e.children, 0, m, p, base, pos)
    } else {
        Err(RouteError::RouteNotFound)
    }
}

/// Tries the children of each entry of `es[i..]` whose key is `key`, in order.
pub open spec fn try_entries<H>(
    es: Vec<RouteEntry<H>>,
    i: int,
    key: Seq<char>,
    m: Method,
    p: Seq<char>,
    base: int,
    pos: int,
) -> Result<Outcome<H>, RouteError>
    decreases es, es.len() - i,
{
    if 0 <= i < es.len() {
        match entry_result(es[i], key, m, p, base, pos) {
            Err(RouteError::RouteNotFound) => try_entries(es, i + 1, key, m, p, base, pos),
            other => other,
        }
    } else {
        Err(RouteError::RouteNotFound)
    }
}

/// What the search found, as a borrowed service and offset.
pub enum Found<'a, H> {
    Serve(&'a Service<H>, usize),
    Missing,
}

pub open spec fn found_is<'a, H>(f: Found<'a, H>, o: Outcome<H>) -> bool {
    match (f, o) {
        (Found::Serve(s, b), Outcome::Serve(t, c)) => *s == t && b == c,
        (Found::Missing, Outcome::Missing) => true,
        _ => false,
    }
}

pub open spec fn result_is<'a, H>(
    r: Result<Found<'a, H>, RouteError>,
    o: Result<Outcome<H>, RouteError>,
) -> bool {
    match (r, o) {
        (Ok(f), Ok(g)) => found_is(f, g),
        (Err(e), Err(g)) => e == g,
        _ => false,
    }
}

/// The component of `path` at `pos`, as `(start, end)`: leading slashes are
/// skipped, and the component runs to the next slash or the end.
pub fn compute_segments(path: &Vec<char>, pos: usize) -> (r: (usize, usize))
    requires
        pos <= path.len(),
    ensures
        r.0 == segment_start(path@, pos as int),
        r.1 == segment_end(path@, pos as int),
        pos <= r.0 <= r.1 <= path.len(),
{
    let mut i = pos;
    while i < path.len() && path[i] == '/'
        invariant
            pos <= i <= path.len(),
            segment_start(path@, pos as int) == i + slash_run(path@.subrange(i as int, path.len() as int)),
        decreases path.len() - i,
    {
        assert(path@.subrange(i as int, path.len() as int).subrange(1, (path.len() - i) as int)
            =~= path@.subrange(i + 1, path.len() as int));
        i = i + 1;
    }
    let start = i;
    let end = find_from(path, '/', start, path.len());
    (start, end)
}

/// End of the mount prefix of `segs[j..]` matched in `p` from `k`, or `None` when
/// `p` does not continue with it.
fn mount_from(segs: &Vec<PathSegment>, j: usize, p: &Vec<char>, k: usize) -> (r: Option<usize>)
    requires
        j <= segs.len(),
        k <= p.len(),
    ensures
        ({
            let mp = mount_prefix(segs@.subrange(j as int, segs.len() as int));
            if k + mp.len() <= p.len() && p@.subrange(k as int, k + mp.len()) == mp {
                r == Some((k + mp.len()) as usize)
            } else {
                r is None
            }
        }),
    decreases segs.len() - j,
{
    let ghost rest = segs@.subrange(j as int, segs.len() as int);
    if j == segs.len() {
        assert(p@.subrange(k as int, k as int) =~= Seq::<char>::empty());
        return Some(k);
    }
    match &segs[j] {
        PathSegment::Wildcard => {
            assert(p@.subrange(k as int, k as int) =~= Seq::<char>::empty());
            Some(k)
        },
        PathSegment::Literal(t) => {
            assert(rest.drop_first() =~= segs@.subrange(j + 1, segs.len() as int));
            let ghost mp = mount_prefix(rest);
            let ghost tail = mount_prefix(segs@.subrange(j + 1, segs.len() as int));
            assert(mp == t@ + seq!['/'] + tail);
            let tl = chars_of(t.as_str()).len();
            if tl >= p.len() - k {
                proof {
                    if k + mp.len() <= p.len() {
                        assert(false);
                    }
                }
                return None;
            }
            if !same_chars(t.as_str(), p, k, k + tl) {
                proof {
                    if k + mp.len() <= p.len() && p@.subrange(k as int, k + mp.len()) == mp {
                        assert(p@.subrange(k as int, k + tl) =~= mp.subrange(0, tl as int));
                        assert(mp.subrange(0, tl as int) =~= t@);
                    }
                }
                return None;
            }
            if p[k + tl] != '/' {
                proof {
                    if k + mp.len() <= p.len() && p@.subrange(k as int, k + mp.len()) == mp {
                        assert(p@.subrange(k as int, k + mp.len())[tl as int] == p@[k + tl]);
                    }
                }
                return None;
            }
            let r = mount_from(segs, j + 1, p, k + tl + 1);
            proof {
                let n = (k + tl + 1) as int;
                if n + tail.len() <= p.len() && p@.subrange(n, n + tail.len()) == tail {
                    assert(p@.subrange(k as int, k + mp.len()) =~= mp);
                } else if k + mp.len() <= p.len() && p@.subrange(k as int, k + mp.len()) == mp {
                    assert(p@.subrange(n, n + tail.len()) =~= p@.subrange(k as int, k + mp.len()).subrange(
                        tl + 1,
                        mp.len() as int,
                    ));
                    assert(mp.subrange(tl + 1, mp.len() as int) =~= tail);
                }
            }
            r
        },
    }
}

impl<H> DeferredRouteService<H> {
    pub fn new(path: RoutePathObject, router: Router<H>) -> (r: DeferredRouteService<H>)
        ensures
            r.path == path,
            *r.router == router,
    {
        DeferredRouteService { path, router: Box::new(router) }
    }
}

impl<H> Router<H> {
    pub fn new(paths: Vec<RouteEntry<H>>, default_services: Vec<Router<H>>) -> (r: Router<H>)
        ensures
            r == (Router::Router { paths, default_services }),
    {
        Router::Router { paths, default_services }
    }

    fn handle_internal<'a>(&'a self, m: Method, p: &Vec<char>, base: usize, pos: usize) -> (r: Result<
        Found<'a, H>,
        RouteError,
    >)
        requires
            base <= p.len(),
            pos <= p.len(),
        ensures
            result_is(r, resolve(*self, m, p@, base as int, pos as int)),
            r matches Ok(Found::Serve(_, b)) ==> b <= p.len(),
        decreases *self, 0int,
    {
        match self {
            Router::Router { paths, default_services } => {
                let (start, end) = compute_segments(p, pos);
                match try_entries_exec(paths, 0, start, end, m, p, base) {
                    Err(RouteError::RouteNotFound) => try_list_exec(
                        default_services,
                        0,
                        m,
                        p,
                        base,
                        pos,
                    ),
                    other => other,
                }
            },
            Router::Service(method, service) => {
                match method {
                    Some(mm) => {
                        if *mm != m {
                            return Err(RouteError::RouteNotFound);
                        }
                    },
                    None => {},
                }
                match service {
                    Service::Deferred(d) => {
                        match mount_from(&d.path.path, 0, p, base) {
                            Some(nb) => {
                                assert(d.path.path@.subrange(0, d.path.path@.len() as int)
                                    =~= d.path.path@);
                                d.router.handle_top(m, p, nb)
                            },
                            None => {
                                assert(d.path.path@.subrange(0, d.path.path@.len() as int)
                                    =~= d.path.path@);
                                Err(RouteError::MountMismatch)
                            },
                        }
                    },
                    _ => Ok(Found::Serve(service, base)),
                }
            },
        }
    }

    fn handle_top<'a>(&'a self, m: Method, p: &Vec<char>, base: usize) -> (r: Result<
        Found<'a, H>,
        RouteError,
    >)
        requires
            base <= p.len(),
        ensures
            result_is(r, top(*self, m, p@, base as int)),
            r matches Ok(Found::Serve(_, b)) ==> b <= p.len(),
        decreases *self, 1int,
    {
        match self.handle_internal(m, p, base, base) {
            Err(RouteError::RouteNotFound) => Ok(Found::Missing),
            other => other,
        }
    }
}

fn try_list_exec<'a, H>(
    v: &'a Vec<Router<H>>,
    i0: usize,
    m: Method,
    p: &Vec<char>,
    base: usize,
    pos: usize,
) -> (r: Result<Found<'a, H>, RouteError>)
    requires
        base <= p.len(),
        pos <= p.len(),
        i0 <= v.len(),
    ensures
        result_is(r, try_list(*v, i0 as int, m, p@, base as int, pos as int)),
        r matches Ok(Found::Serve(_, b)) ==> b <= p.len(),
    decreases *v, 0int,
{
    let mut i = i0;
    while i < v.len()
        invariant
            i0 <= i <= v.len(),
            base <= p.len(),
            pos <= p.len(),
            try_list(*v, i0 as int, m, p@, base as int, pos as int) == try_list(
                *v,
                i as int,
                m,
                p@,
                base as int,
                pos as int,
            ),
        decreases v.len() - i,
    {
        match v[i].handle_internal(m, p, base, pos) {
            Err(RouteError::RouteNotFound) => {},
            other => {
                return other;
            },
        }
        i = i + 1;
    }
    Err(RouteError::RouteNotFound)
}

fn try_entries_exec<'a, H>(
    es: &'a Vec<RouteEntry<H>>,
    i0: usize,
    start: usize,
    end: usize,
    m: Method,
    p: &Vec<char>,
    base: usize,
) -> (r: Result<Found<'a, H>, RouteError>)
    requires
        base <= p.len(),
        start <= end <= p.len(),
        i0 <= es.len(),
    ensures
        result_is(
            r,
            try_entries(*es, i0 as int, p@.subrange(start as int, end as int), m, p@, base as int, end as int),
        ),
        r matches Ok(Found::Serve(_, b)) ==> b <= p.len(),
    decreases *es, 0int,
{
    let ghost key = p@.subrange(start as int, end as int);
    let mut i = i0;
    while i < es.len()
        invariant
            i0 <= i <= es.len(),
            base <= p.len(),
            start <= end <= p.len(),
            key == p@.subrange(start as int, end as int),
            try_entries(*es, i0 as int, key, m, p@, base as int, end as int) == try_entries(
                *es,
                i as int,
                key,
                m,
                p@,
                base as int,
                end as int,
            ),
        decreases es.len() - i,
    {
        let here = if same_chars(es[i].key.as_str(), p, start, end) {
            assert(entry_result(es@[i as int], key, m, p@, base as int, end as int) == try_list(
                es@[i as int].children,
                0,
                m,
                p@,
                base as int,
                end as int,
            ));
            try_list_exec(&es[i].children, 0, m, p, base, end)
        } else {
            assert(entry_result(es@[i as int], key, m, p@, base as int, end as int) == Err::<
                Outcome<H>,
                RouteError,
            >(RouteError::RouteNotFound));
            Err(RouteError::RouteNotFound)
        };
        match here {
            Err(RouteError::RouteNotFound) => {},
            other => {
                return other;
            },
        }
        i = i + 1;
    }
    Err(RouteError::RouteNotFound)
}

/// What `Router::handle` settled on.
pub enum Target<'a, H> {
    /// This service answers `request`: the incoming request with the path it
    /// sees in place of the original one.
    Serve { service: &'a Service<H>, request: HttpRequest },
    /// Nothing matched: the answer is `404 Not Found`.
    NotFound,
}

impl<H> Router<H> {
    /// Finds the service that answers `request`, searching depth-first with the
    /// fallbacks described on `resolve`. The only error is a mount mismatch.
    pub fn handle<'a>(&'a self, request: &HttpRequest) -> (r: Result<Target<'a, H>, RouteError>)
        ensures
            match top(*self, request.method, request.path@, 0) {
                Ok(Outcome::Serve(s, b)) => r matches Ok(Target::Serve { service, request: seen })
                    && *service == s && seen.path@ == request.path@.subrange(
                    b,
                    request.path@.len() as int,
                ) && seen.method == request.method && seen.query@ == request.query@
                    && seen.headers@ == request.headers@ && seen.body@ == request.body@,
                Ok(Outcome::Missing) => r matches Ok(Target::NotFound),
                Err(e) => r == Err::<Target<'a, H>, RouteError>(e),
            },
    {
        let p = chars_of(request.path.as_str());
        match self.handle_top(request.method, &p, 0) {
            Ok(Found::Serve(service, b)) => Ok(
                Target::Serve { service, request: request.with_path(string_of(&p, b, p.len())) },
            ),
            Ok(Found::Missing) => Ok(Target::NotFound),
            Err(e) => Err(e),
        }
    }
}

/// The answer when no route matched at a router's root.
pub fn not_found_response() -> (r: HttpResponse)
    ensures
        r.status == Status::NotFound,
        r.body@ == "404 Not Found"@,
        r.headers@.len() == 0,
{
    HttpResponse::new(Status::NotFound, Vec::new(), String::from_str("404 Not Found"))
}

} // verus!
