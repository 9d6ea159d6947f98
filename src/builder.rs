//! Fluent construction of a dispatch tree from route registrations.
use vstd::prelude::*;

use vstd::string::StringExecFns;

use crate::escape::EscapeError;
use crate::request::Method;
use crate::response::{HttpResponse, Status};
use crate::route::{compiled, extends_with, pairs_view, PathSegment, RoutePathObject, DefaultRoute};
use crate::router::{DeferredRouteService, RouteEntry, Router, Service};
use crate::service::{ServeFileService, StaticResponseService};

verus! {

/// One registration: a compiled route, an optional method, and its service.
pub struct RoutePathService<H> {
    pub path: RoutePathObject,
    pub method: Option<Method>,
    pub service: Service<H>,
}

impl<H> RoutePathService<H> {
    pub fn new(path: RoutePathObject, method: Option<Method>, service: Service<H>) -> (r: RoutePathService<H>)
        ensures
            r.path == path,
            r.method == method,
            r.service == service,
    {
        RoutePathService { path, method, service }
    }

    pub fn path(&self) -> (r: &RoutePathObject)
        ensures
            *r == self.path,
    {
        &self.path
    }

    pub fn service(&self) -> (r: &Service<H>)
        ensures
            *r == self.service,
    {
        &self.service
    }
}

/// Registrations in declaration order, and the first pattern that failed to compile.
pub struct RouterBuilder<H> {
    pub routes: Vec<RoutePathService<H>>,
    pub error: Option<EscapeError>,
}

/// A registration in progress: its compiled pattern and the method it is narrowed to.
pub struct RouterPathBuilder<H> {
    pub builder: RouterBuilder<H>,
    pub path: Result<RoutePathObject, EscapeError>,
    pub method: Option<Method>,
}

/// An empty literal segment that is not the last is coalesced away.
pub open spec fn dropped(segs: Seq<PathSegment>, j: int) -> bool {
    &&& j + 1 < segs.len()
    &&& segs[j] is Literal
    &&& segs[j]->Literal_0@.len() == 0
}

/// The first segment at or after `j` that is not coalesced away.
pub open spec fn next_kept(segs: Seq<PathSegment>, j: int) -> int
    decreases segs.len() - j,
{
    if 0 <= j < segs.len() && dropped(segs, j) {
        next_kept(segs, j + 1)
    } else {
        j
    }
}

/// A route that goes to the defaults of the root: its first kept segment is a wildcard.
pub open spec fn is_default_key(segs: Seq<PathSegment>) -> bool {
    let j = next_kept(segs, 0);
    j >= segs.len() || segs[j] is Wildcard
}

pub open spec fn node_paths<H>(n: Router<H>) -> Seq<RouteEntry<H>> {
    match n {
        Router::Router { paths, .. } => paths@,
        _ => Seq::empty(),
    }
}

pub open spec fn node_defaults<H>(n: Router<H>) -> Seq<Router<H>> {
    match n {
        Router::Router { default_services, .. } => default_services@,
        _ => Seq::empty(),
    }
}

/// `node` is the single path that spells `segs[j..]` out down to `leaf`:
/// one literal entry per kept literal segment, a default list at a wildcard.
pub open spec fn is_chain<H>(node: Router<H>, segs: Seq<PathSegment>, j: int, leaf: Router<H>) -> bool
    decreases segs.len() - j,
{
    if j < 0 || j >= segs.len() {
        node == leaf
    } else if dropped(segs, j) {
        is_chain(node, segs, j + 1, leaf)
    } else {
        match segs[j] {
            PathSegment::Wildcard => node is Router && node_paths(node).len() == 0
                && node_defaults(node) == seq![leaf],
            PathSegment::Literal(t) => node is Router && node_defaults(node).len() == 0
                && node_paths(node).len() == 1 && node_paths(node)[0].key@ == t@
                && node_paths(node)[0].children@.len() == 1 && is_chain(
                node_paths(node)[0].children@[0],
                segs,
                j + 1,
                leaf,
            ),
        }
    }
}

pub open spec fn leaf_of<H>(r: RoutePathService<H>) -> Router<H> {
    Router::Service(r.method, r.service)
}

/// How many of `routes` go to the defaults of the root.
pub open spec fn count_defaults<H>(routes: Seq<RoutePathService<H>>) -> nat
    decreases routes.len(),
{
    if routes.len() == 0 {
        0
    } else {
        count_defaults(routes.drop_last()) + if is_default_key(routes.last().path.path@) {
            1nat
        } else {
            0nat
        }
    }
}

/// Where registration `k` stands: a default leaf in order among the defaults, or
/// a literal entry, in order among the entries, leading down its chain.
pub open spec fn placed_at<H>(
    routes: Seq<RoutePathService<H>>,
    k: int,
    paths: Seq<RouteEntry<H>>,
    defaults: Seq<Router<H>>,
) -> bool {
    let segs = routes[k].path.path@;
    let d = count_defaults(routes.subrange(0, k)) as int;
    if is_default_key(segs) {
        d < defaults.len() && defaults[d] == leaf_of(routes[k])
    } else {
        let j = next_kept(segs, 0);
        &&& 0 <= k - d < paths.len()
        &&& paths[k - d].key@ == segs[j]->Literal_0@
        &&& paths[k - d].children@.len() == 1
        &&& is_chain(paths[k - d].children@[0], segs, j + 1, leaf_of(routes[k]))
    }
}

/// The registrations `routes`, in order, laid out as literal entries and defaults.
pub open spec fn placed<H>(
    routes: Seq<RoutePathService<H>>,
    paths: Seq<RouteEntry<H>>,
    defaults: Seq<Router<H>>,
) -> bool {
    &&& defaults.len() == count_defaults(routes)
    &&& paths.len() + defaults.len() == routes.len()
    &&& forall|k: int| 0 <= k < routes.len() ==> #[trigger] placed_at(routes, k, paths, defaults)
}

/// The synthesized fallback: `404 Not Found` with body `Invalid path`.
pub open spec fn is_invalid_path_leaf<H>(n: Router<H>) -> bool {
    match n {
        Router::Service(None, Service::StaticResponse(s)) => s.response.status == Status::NotFound
            && s.response.body@ == "Invalid path"@,
        _ => false,
    }
}

/// `root` is the tree that `build` lays the registrations `routes` out as.
pub open spec fn builds<H>(routes: Seq<RoutePathService<H>>, root: Router<H>) -> bool {
    &&& root is Router
    &&& count_defaults(routes) > 0 ==> placed(routes, node_paths(root), node_defaults(root))
    &&& count_defaults(routes) == 0 ==> node_defaults(root).len() == 1 && is_invalid_path_leaf(
        node_defaults(root)[0],
    ) && placed(routes, node_paths(root), Seq::empty())
}

pub proof fn lemma_count_defaults_step<H>(routes: Seq<RoutePathService<H>>, k: int)
    requires
        0 <= k < routes.len(),
    ensures
        count_defaults(routes.subrange(0, k + 1)) == count_defaults(routes.subrange(0, k)) + if is_default_key(routes[k].path.path@) {
            1nat
        } else {
            0nat
        },
        count_defaults(routes.subrange(0, k)) <= k,
    decreases k,
{
    assert(routes.subrange(0, k + 1).drop_last() =~= routes.subrange(0, k));
    if k > 0 {
        lemma_count_defaults_step(routes, k - 1);
    } else {
        assert(routes.subrange(0, 0).len() == 0);
    }
}

/// The node chain for `segs[j..]` ending in `leaf`.
fn chain<H>(segs: &Vec<PathSegment>, j: usize, leaf: Router<H>) -> (r: Router<H>)
    requires
        j <= segs.len(),
    ensures
        is_chain(r, segs@, j as int, leaf),
    decreases segs.len() - j,
{
    if j == segs.len() {
        return leaf;
    }
    let last = j + 1 == segs.len();
    match &segs[j] {
        PathSegment::Wildcard => {
            let ghost l = leaf;
            let d = vec![leaf];
            assert(d@ =~= seq![l]);
            Router::new(Vec::new(), d)
        },
        PathSegment::Literal(t) => {
            if !last && t.as_str().unicode_len() == 0 {
                chain(segs, j + 1, leaf)
            } else {
                let below = chain(segs, j + 1, leaf);
                let r = Router::new(
                    vec![RouteEntry { key: t.clone(), children: vec![below] }],
                    Vec::new(),
                );
                assert(node_paths(r)[0].children@[0] == below);
                r
            }
        },
    }
}

/// Index of the first kept segment of `segs`.
fn first_kept(segs: &Vec<PathSegment>) -> (r: usize)
    ensures
        r == next_kept(segs@, 0),
        r <= segs.len(),
{
    let mut j: usize = 0;
    while j < segs.len()
        invariant
            j <= segs.len(),
            next_kept(segs@, 0) == next_kept(segs@, j as int),
        decreases segs.len() - j,
    {
        if j + 1 < segs.len() {
            match &segs[j] {
                PathSegment::Literal(t) => {
                    if t.as_str().unicode_len() == 0 {
                        j = j + 1;
                        continue;
                    }
                },
                PathSegment::Wildcard => {},
            }
        }
        return j;
    }
    j
}

impl<H> RouterBuilder<H> {
    pub fn new() -> (r: RouterBuilder<H>)
        ensures
            r.routes@.len() == 0,
            r.error is None,
    {
        RouterBuilder { routes: Vec::new(), error: None }
    }

    /// Starts a registration at `pattern`, compiled as `RoutePathObject::parse` does.
    pub fn route(self, pattern: &str) -> (r: RouterPathBuilder<H>)
        ensures
            r.builder == self,
            r.method is None,
            match compiled(pattern@) {
                Ok((ds, qs)) => r.path is Ok && extends_with(Seq::empty(), r.path->Ok_0.path@, ds)
                    && pairs_view(r.path->Ok_0.query@) == qs,
                Err(e) => r.path == Err::<RoutePathObject, EscapeError>(e),
            },
    {
        RouterPathBuilder { builder: self, path: RoutePathObject::parse(pattern), method: None }
    }

    /// Starts a registration of the catch-all route.
    pub fn default(self) -> (r: RouterPathBuilder<H>)
        ensures
            r.builder == self,
            r.method is None,
            r.path is Ok,
            r.path->Ok_0.path@.len() == 1,
            r.path->Ok_0.path@[0] is Wildcard,
            r.path->Ok_0.query@.len() == 0,
    {
        RouterPathBuilder { builder: self, path: Ok(DefaultRoute.to_path_object()), method: None }
    }

    fn insert_handler(&mut self, service: RoutePathService<H>)
        ensures
            final(self).routes@ == old(self).routes@.push(service),
            final(self).error == old(self).error,
    {
        self.routes.push(service);
    }

    /// Lays the registrations out as a tree: a route whose first kept segment is
    /// literal becomes an entry of the root leading down its own chain; one that
    /// starts with a wildcard becomes a default leaf of the root; both keep
    /// declaration order. With no default, a `404 Not Found` / `Invalid path`
    /// leaf is the root's only default. A pattern that failed to compile fails here.
    pub fn build(self) -> (r: Result<Router<H>, EscapeError>)
        ensures
            self.error is Some ==> r == Err::<Router<H>, EscapeError>(self.error->0),
            self.error is None ==> r is Ok && builds(self.routes@, r->Ok_0),
    {
        if let Some(e) = self.error {
            return Err(e);
        }
        let ghost orig = self.routes@;
        let mut routes = self.routes;
        let mut paths: Vec<RouteEntry<H>> = Vec::new();
        let mut defaults: Vec<Router<H>> = Vec::new();
        let mut k: usize = 0;
        let n = routes.len();
        while routes.len() > 0
            invariant
                n == orig.len(),
                k <= orig.len(),
                routes@ == orig.subrange(k as int, orig.len() as int),
                defaults@.len() == count_defaults(orig.subrange(0, k as int)),
                paths@.len() + defaults@.len() == k,
                forall|i: int| 0 <= i < k ==> #[trigger] placed_at(orig, i, paths@, defaults@),
            decreases routes.len(),
        {
            assert(routes@.len() == orig.len() - k);
            let route = routes.remove(0);
            assert(route == orig[k as int]);
            proof {
                lemma_count_defaults_step(orig, k as int);
            }
            let RoutePathService { path, method, service } = route;
            let leaf = Router::Service(method, service);
            let j = first_kept(&path.path);
            let ghost old_paths = paths@;
            let ghost old_defaults = defaults@;
            let mut is_default = j == path.path.len();
            if !is_default {
                match &path.path[j] {
                    PathSegment::Wildcard => {
                        is_default = true;
                    },
                    PathSegment::Literal(_) => {},
                }
            }
            if is_default {
                defaults.push(leaf);
            } else {
                match &path.path[j] {
                    PathSegment::Literal(t) => {
                        let key = t.clone();
                        let below = chain(&path.path, j + 1, leaf);
                        paths.push(RouteEntry { key, children: vec![below] });
                    },
                    PathSegment::Wildcard => {},
                }
            }
            proof {
                assert forall|i: int| 0 <= i < k + 1 implies #[trigger] placed_at(
                    orig,
                    i,
                    paths@,
                    defaults@,
                ) by {
                    if i < k {
                        assert(placed_at(orig, i, old_paths, old_defaults));
                        lemma_count_defaults_step(orig, i);
                        lemma_count_defaults_prefix(orig, i, k as int);
                    }
                }
            }
            k = k + 1;
            assert(routes@ =~= orig.subrange(k as int, orig.len() as int));
        }
        assert(orig.subrange(0, orig.len() as int) =~= orig);
        assert(placed(orig, paths@, defaults@));
        if defaults.len() == 0 {
            assert(defaults@ =~= Seq::<Router<H>>::empty());
            let response = HttpResponse::new(
                Status::NotFound,
                Vec::new(),
                String::from_str("Invalid path"),
            );
            defaults.push(Router::Service(None, Service::StaticResponse(StaticResponseService::new(response))));
        }
        let ghost pv = paths@;
        let ghost dv = defaults@;
        let root = Router::new(paths, defaults);
        assert(node_paths(root) == pv && node_defaults(root) == dv);
        Ok(root)
    }
}

proof fn lemma_count_defaults_prefix<H>(routes: Seq<RoutePathService<H>>, i: int, k: int)
    requires
        0 <= i < k < routes.len(),
    ensures
        count_defaults(routes.subrange(0, i + 1)) <= count_defaults(routes.subrange(0, k)),
        (i + 1) - count_defaults(routes.subrange(0, i + 1)) <= k - count_defaults(routes.subrange(0, k)),
    decreases k - i,
{
    lemma_count_defaults_step(routes, k - 1);
    if i + 1 < k {
        lemma_count_defaults_prefix(routes, i, k - 1);
    }
}

impl<H> RouterPathBuilder<H> {
    /// Narrows the registration to requests with method `method`.
    pub fn method(self, method: Method) -> (r: RouterPathBuilder<H>)
        ensures
            r.builder == self.builder,
            r.path == self.path,
            r.method == Some(method),
    {
        RouterPathBuilder { builder: self.builder, path: self.path, method: Some(method) }
    }

    /// Registers `service` at the pattern, or records the pattern's error.
    fn finish(self, service: Service<H>) -> (r: RouterBuilder<H>)
        ensures
            self.path is Ok ==> r.routes@ == self.builder.routes@.push(
                RoutePathService { path: self.path->Ok_0, method: self.method, service },
            ) && r.error == self.builder.error,
            self.path is Err ==> r.routes == self.builder.routes && r.error == if self.builder.error is Some {
                self.builder.error
            } else {
                Some(self.path->Err_0)
            },
    {
        let mut builder = self.builder;
        match self.path {
            Ok(path) => {
                builder.insert_handler(RoutePathService::new(path, self.method, service));
            },
            Err(e) => {
                if builder.error.is_none() {
                    builder.error = Some(e);
                }
            },
        }
        builder
    }

    /// Answers with `response` at this route.
    pub fn static_res(self, response: HttpResponse) -> (r: RouterBuilder<H>)
        ensures
            self.path is Ok ==> r.routes@ == self.builder.routes@.push(
                RoutePathService {
                    path: self.path->Ok_0,
                    method: self.method,
                    service: Service::StaticResponse(StaticResponseService { response }),
                },
            ) && r.error == self.builder.error,
            self.path is Err ==> r.routes == self.builder.routes && r.error == if self.builder.error is Some {
                self.builder.error
            } else {
                Some(self.path->Err_0)
            },
    {
        self.finish(Service::StaticResponse(StaticResponseService::new(response)))
    }

    /// Serves files under `root` at this route.
    pub fn file(self, root: String) -> (r: RouterBuilder<H>)
        ensures
            self.path is Ok ==> r.routes@ == self.builder.routes@.push(
                RoutePathService {
                    path: self.path->Ok_0,
                    method: self.method,
                    service: Service::ServeFile(ServeFileService { root }),
                },
            ) && r.error == self.builder.error,
            self.path is Err ==> r.routes == self.builder.routes && r.error == if self.builder.error is Some {
                self.builder.error
            } else {
                Some(self.path->Err_0)
            },
    {
        self.finish(Service::ServeFile(ServeFileService::new(root)))
    }

    /// Hands requests at this route to `handler`.
    pub fn handler(self, handler: H) -> (r: RouterBuilder<H>)
        ensures
            self.path is Ok ==> r.routes@ == self.builder.routes@.push(
                RoutePathService {
                    path: self.path->Ok_0,
                    method: self.method,
                    service: Service::Handler(handler),
                },
            ) && r.error == self.builder.error,
            self.path is Err ==> r.routes == self.builder.routes && r.error == if self.builder.error is Some {
                self.builder.error
            } else {
                Some(self.path->Err_0)
            },
    {
        self.finish(Service::Handler(handler))
    }

    /// Mounts `router` at this route; it sees the path after the route's literal prefix.
    pub fn defer(self, router: Router<H>) -> (r: RouterBuilder<H>)
        ensures
            self.path is Ok ==> {
                &&& r.error == self.builder.error
                &&& r.routes@.len() == self.builder.routes@.len() + 1
                &&& r.routes@.drop_last() == self.builder.routes@
                &&& r.routes@.last().path == self.path->Ok_0
                &&& r.routes@.last().method == self.method
                &&& r.routes@.last().service is Deferred
                &&& r.routes@.last().service->Deferred_0.path.path@ == self.path->Ok_0.path@
                &&& r.routes@.last().service->Deferred_0.path.query@ == self.path->Ok_0.query@
                &&& *r.routes@.last().service->Deferred_0.router == router
            },
            self.path is Err ==> r.routes == self.builder.routes && r.error == if self.builder.error is Some {
                self.builder.error
            } else {
                Some(self.path->Err_0)
            },
    {
        let mut builder = self.builder;
        match self.path {
            Ok(p) => {
                let mount = p.duplicate();
                let service = Service::Deferred(DeferredRouteService::new(mount, router));
                builder.insert_handler(RoutePathService::new(p, self.method, service));
                assert(builder.routes@.drop_last() =~= self.builder.routes@);
            },
            Err(e) => {
                if builder.error.is_none() {
                    builder.error = Some(e);
                }
            },
        }
        builder
    }
}

} // verus!
