//! Properties that relate route registration, tree building and matching.
use vstd::prelude::*;

use crate::builder::{
    builds, count_defaults, dropped, is_chain, is_default_key, is_invalid_path_leaf, leaf_of,
    lemma_count_defaults_step, next_kept, node_defaults, node_paths, placed_at, RoutePathService,
};
use crate::escape::{lemma_decode_plain, EscapeError};
use crate::request::Method;
use crate::route::{compiled, decode_all, extends_with, pattern_path, segment_is, PathSegment};
use crate::router::{
    entry_result, resolve, segment_end, segment_start, slash_run, top, try_entries, try_list,
    Outcome, RouteError, Router, Service,
};
use crate::text::{first_index, lemma_first_index_bound, split_on};

verus! {

/// `segs[j..]` are the literal segments for the pieces of `r` split on `/`.
pub open spec fn fits(segs: Seq<PathSegment>, j: int, r: Seq<char>) -> bool {
    &&& 0 <= j
    &&& !r.contains('%')
    &&& segs.len() == j + split_on(r, '/').len()
    &&& forall|k: int|
        0 <= k < split_on(r, '/').len() ==> (#[trigger] segs[j + k]) is Literal
            && segs[j + k]->Literal_0@ == split_on(r, '/')[k]
}

pub open spec fn all_slashes(sl: Seq<char>) -> bool {
    forall|i: int| 0 <= i < sl.len() ==> sl[i] == '/'
}

proof fn lemma_no_char_in_subrange(s: Seq<char>, c: char, a: int, b: int)
    requires
        0 <= a <= b <= s.len(),
        !s.contains(c),
    ensures
        !s.subrange(a, b).contains(c),
{
    if s.subrange(a, b).contains(c) {
        let k = choose|k: int| 0 <= k < b - a && s.subrange(a, b)[k] == c;
        assert(s[a + k] == c);
    }
}

/// Without `%`, the pieces of `s` decode to themselves, and none holds `/`.
proof fn lemma_pieces_plain(s: Seq<char>)
    requires
        !s.contains('%'),
    ensures
        decode_all(split_on(s, '/')) == Ok::<Seq<Seq<char>>, EscapeError>(split_on(s, '/')),
        forall|k: int| 0 <= k < split_on(s, '/').len() ==> !(#[trigger] split_on(s, '/')[k]).contains('/'),
    decreases s.len(),
{
    lemma_first_index_bound(s, '/');
    let i = first_index(s, '/') as int;
    let piece = s.subrange(0, i);
    lemma_no_char_in_subrange(s, '%', 0, i);
    lemma_decode_plain(piece);
    assert(!piece.contains('/')) by {
        if piece.contains('/') {
            let k = choose|k: int| 0 <= k < i && piece[k] == '/';
            assert(s[k] == '/');
        }
    }
    let pieces = split_on(s, '/');
    if i < s.len() {
        let r = s.subrange(i + 1, s.len() as int);
        lemma_no_char_in_subrange(s, '%', i + 1, s.len() as int);
        lemma_pieces_plain(r);
        assert(pieces == seq![piece] + split_on(r, '/'));
        assert(pieces.drop_first() =~= split_on(r, '/'));
        assert(pieces[0] == piece);
        assert(seq![piece] + split_on(r, '/') =~= pieces);
        assert forall|k: int| 0 <= k < pieces.len() implies !(#[trigger] pieces[k]).contains('/') by {
            if k > 0 {
                assert(pieces[k] == split_on(r, '/')[k - 1]);
            }
        }
    } else {
        assert(pieces == seq![s]);
        assert(piece =~= s);
        assert(pieces.drop_first().len() == 0);
        assert(decode_all(pieces.drop_first()) == Ok::<Seq<Seq<char>>, EscapeError>(Seq::empty()));
        assert(seq![s] + Seq::<Seq<char>>::empty() =~= pieces);
    }
}

proof fn lemma_slash_run_prefix(sl: Seq<char>, x: Seq<char>)
    requires
        all_slashes(sl),
    ensures
        slash_run(sl + x) == sl.len() + slash_run(x),
    decreases sl.len(),
{
    if sl.len() == 0 {
        assert(sl + x =~= x);
    } else {
        let t = sl.subrange(1, sl.len() as int);
        assert((sl + x)[0] == '/');
        assert((sl + x).subrange(1, (sl + x).len() as int) =~= t + x);
        lemma_slash_run_prefix(t, x);
    }
}

/// What the component read at `pos` is, when the rest of `p` is slashes and then
/// the text of `segs[j..]`: the first kept segment, and the text of the ones after it.
proof fn lemma_text_step(segs: Seq<PathSegment>, j: int, p: Seq<char>, pos: int, r: Seq<char>, sl: Seq<char>)
    requires
        fits(segs, j, r),
        all_slashes(sl),
        0 <= pos <= p.len(),
        p.subrange(pos, p.len() as int) == sl + r,
    ensures
        j <= next_kept(segs, j) < segs.len(),
        segs[next_kept(segs, j)] is Literal,
        !dropped(segs, next_kept(segs, j)),
        segment_start(p, pos) <= segment_end(p, pos) <= p.len(),
        p.subrange(segment_start(p, pos), segment_end(p, pos)) == segs[next_kept(segs, j)]->Literal_0@,
        next_kept(segs, j) + 1 < segs.len() ==> segment_end(p, pos) < p.len() && p[segment_end(
            p,
            pos,
        )] == '/' && fits(segs, next_kept(segs, j) + 1, p.subrange(segment_end(p, pos) + 1, p.len() as int)),
    decreases r.len(),
{
    lemma_pieces_plain(r);
    lemma_first_index_bound(r, '/');
    let i = first_index(r, '/') as int;
    let pieces = split_on(r, '/');
    let t = r.subrange(0, i);
    assert(pieces[0] == t);
    assert(segs[j + 0] is Literal);
    lemma_slash_run_prefix(sl, r);
    assert(p.subrange(pos + sl.len(), p.len() as int) =~= r) by {
        assert(p.subrange(pos + sl.len(), p.len() as int) =~= (sl + r).subrange(sl.len() as int, (sl + r).len() as int));
    }
    if i < r.len() {
        let r2 = r.subrange(i + 1, r.len() as int);
        lemma_no_char_in_subrange(r, '%', i + 1, r.len() as int);
        assert(pieces == seq![t] + split_on(r2, '/'));
        let rest = split_on(r2, '/');
        if i == 0 {
            assert(dropped(segs, j));
            let sl2 = sl + seq!['/'];
            assert(r =~= seq!['/'] + r2);
            assert(p.subrange(pos, p.len() as int) =~= sl2 + r2);
            assert forall|k: int| 0 <= k < rest.len() implies (#[trigger] segs[(j + 1) + k]) is Literal
                && segs[(j + 1) + k]->Literal_0@ == rest[k] by {
                assert(segs[j + (k + 1)] == segs[(j + 1) + k]);
                assert(pieces[k + 1] == rest[k]);
            }
            lemma_text_step(segs, j + 1, p, pos, r2, sl2);
        } else {
            assert(t[0] != '/');
            assert(r[0] == t[0]);
            assert(slash_run(r) == 0);
            assert(!dropped(segs, j));
            let start = pos + sl.len();
            assert(segment_start(p, pos) == start);
            assert(p.subrange(start, p.len() as int) == r);
            assert(segment_end(p, pos) == start + i);
            assert(p.subrange(start, start + i) =~= t);
            assert(p[start + i] == r[i]);
            assert(p.subrange(start + i + 1, p.len() as int) =~= r2);
            assert forall|k: int| 0 <= k < rest.len() implies (#[trigger] segs[(j + 1) + k]) is Literal
                && segs[(j + 1) + k]->Literal_0@ == rest[k] by {
                assert(segs[j + (k + 1)] == segs[(j + 1) + k]);
                assert(pieces[k + 1] == rest[k]);
            }
        }
    } else {
        assert(pieces == seq![r]);
        assert(t =~= r);
        assert(!dropped(segs, j));
        if r.len() > 0 {
            assert(r[0] != '/');
        }
        assert(slash_run(r) == 0);
        let start = pos + sl.len();
        assert(segment_start(p, pos) == start);
        assert(p.subrange(start, p.len() as int) == r);
        assert(segment_end(p, pos) == start + r.len());
        assert(p.subrange(start, start + r.len()) =~= r);
    }
}

proof fn lemma_chain_skips<H>(node: Router<H>, segs: Seq<PathSegment>, j: int, leaf: Router<H>)
    requires
        0 <= j,
        is_chain(node, segs, j, leaf),
    ensures
        is_chain(node, segs, next_kept(segs, j), leaf),
    decreases segs.len() - j,
{
    if j < segs.len() && dropped(segs, j) {
        lemma_chain_skips(node, segs, j + 1, leaf);
    }
}

/// Along a chain of literal segments, a path that spells them out (slashes between,
/// any number of them) reaches the leaf.
proof fn lemma_chain_fits<H>(
    node: Router<H>,
    segs: Seq<PathSegment>,
    j: int,
    leaf: Router<H>,
    m: Method,
    p: Seq<char>,
    base: int,
    pos: int,
    r: Seq<char>,
    sl: Seq<char>,
)
    requires
        is_chain(node, segs, j, leaf),
        fits(segs, j, r),
        all_slashes(sl),
        0 <= pos <= p.len(),
        p.subrange(pos, p.len() as int) == sl + r,
        leaf matches Router::Service(method, service) && (method is None || method == Some(m))
            && !(service is Deferred),
    ensures
        resolve(node, m, p, base, pos) == Ok::<Outcome<H>, RouteError>(
            Outcome::Serve(leaf->Service_1, base),
        ),
    decreases segs.len() - j,
{
    lemma_text_step(segs, j, p, pos, r, sl);
    lemma_chain_skips(node, segs, j, leaf);
    let jj = next_kept(segs, j);
    let start = segment_start(p, pos);
    let end = segment_end(p, pos);
    assert(is_chain(node, segs, jj, leaf));
    match node {
        Router::Router { paths, default_services } => {
            let child = paths@[0].children@[0];
            assert(is_chain(child, segs, jj + 1, leaf));
            if jj + 1 < segs.len() {
                let r2 = p.subrange(end + 1, p.len() as int);
                assert(p.subrange(end, p.len() as int) =~= seq!['/'] + r2);
                lemma_chain_fits(child, segs, jj + 1, leaf, m, p, base, end, r2, seq!['/']);
            } else {
                assert(child == leaf);
            }
            assert(try_list(paths@[0].children, 1, m, p, base, end) == Err::<Outcome<H>, RouteError>(
                RouteError::RouteNotFound,
            ));
            assert(try_list(paths@[0].children, 0, m, p, base, end) == resolve(child, m, p, base, end));
            assert(entry_result(paths@[0], p.subrange(start, end), m, p, base, end) == resolve(
                child,
                m,
                p,
                base,
                end,
            ));
            assert(try_entries(paths, 0, p.subrange(start, end), m, p, base, end) == resolve(
                child,
                m,
                p,
                base,
                end,
            ));
        },
        _ => {},
    }
}

/// Entries that do not accept a request are passed over.
proof fn lemma_skip_entries<H>(
    es: Vec<crate::router::RouteEntry<H>>,
    i: int,
    e: int,
    key: Seq<char>,
    m: Method,
    p: Seq<char>,
    base: int,
    pos: int,
)
    requires
        0 <= i <= e < es.len(),
        forall|k: int|
            i <= k < e ==> #[trigger] entry_result(es[k], key, m, p, base, pos) == Err::<
                Outcome<H>,
                RouteError,
            >(RouteError::RouteNotFound),
    ensures
        try_entries(es, i, key, m, p, base, pos) == try_entries(es, e, key, m, p, base, pos),
    decreases e - i,
{
    if i < e {
        assert(entry_result(es[i], key, m, p, base, pos) == Err::<Outcome<H>, RouteError>(
            RouteError::RouteNotFound,
        ));
        lemma_skip_entries(es, i + 1, e, key, m, p, base, pos);
    }
}

/// Registering the pattern `s` (no `%`, no `?`, no `*` segment) as registration `k`,
/// the request path `s` itself reaches the service registered there, as long as no
/// literal entry laid out for an earlier registration accepts the request, the
/// registration's method (if any) is the request's, and it mounts no router.
/// Leading, doubled and trailing slashes in `s` are allowed.
#[verifier::rlimit(60)]
pub proof fn lemma_pattern_route_resolves<H>(
    s: Seq<char>,
    routes: Seq<RoutePathService<H>>,
    k: int,
    root: Router<H>,
    m: Method,
)
    requires
        !s.contains('%'),
        !s.contains('?'),
        forall|i: int| 0 <= i < split_on(s, '/').len() ==> #[trigger] split_on(s, '/')[i] != seq!['*'],
        compiled(s) is Ok,
        0 <= k < routes.len(),
        extends_with(Seq::empty(), routes[k].path.path@, compiled(s)->Ok_0.0),
        builds(routes, root),
        routes[k].method is None || routes[k].method == Some(m),
        !(routes[k].service is Deferred),
        forall|e: int|
            0 <= e < k - count_defaults(routes.subrange(0, k)) ==> #[trigger] entry_result(
                node_paths(root)[e],
                s.subrange(segment_start(s, 0), segment_end(s, 0)),
                m,
                s,
                0,
                segment_end(s, 0),
            ) == Err::<Outcome<H>, RouteError>(RouteError::RouteNotFound),
    ensures
        top(root, m, s, 0) == Ok::<Outcome<H>, RouteError>(Outcome::Serve(routes[k].service, 0)),
{
    let segs = routes[k].path.path@;
    lemma_first_index_bound(s, '?');
    assert(pattern_path(s) =~= s);
    lemma_pieces_plain(s);
    let pieces = split_on(s, '/');
    assert(compiled(s)->Ok_0.0 == pieces);
    assert forall|i: int| 0 <= i < pieces.len() implies (#[trigger] segs[0 + i]) is Literal
        && segs[0 + i]->Literal_0@ == pieces[i] by {
        assert(segment_is(segs[0 + i], pieces[i]));
    }
    assert(s.subrange(0, s.len() as int) =~= Seq::<char>::empty() + s);
    lemma_text_step(segs, 0, s, 0, s, Seq::empty());
    let jj = next_kept(segs, 0);
    assert(!is_default_key(segs));
    let d = count_defaults(routes.subrange(0, k)) as int;
    if count_defaults(routes) > 0 {
        assert(placed_at(routes, k, node_paths(root), node_defaults(root)));
    } else {
        assert(placed_at(routes, k, node_paths(root), Seq::empty()));
    }
    let start = segment_start(s, 0);
    let end = segment_end(s, 0);
    let key = s.subrange(start, end);
    let paths = node_paths(root);
    let entry = paths[k - d];
    let child = entry.children@[0];
    let leaf = leaf_of(routes[k]);
    assert(is_chain(child, segs, jj + 1, leaf));
    if jj + 1 < segs.len() {
        let r2 = s.subrange(end + 1, s.len() as int);
        assert(s.subrange(end, s.len() as int) =~= seq!['/'] + r2);
        lemma_chain_fits(child, segs, jj + 1, leaf, m, s, 0, end, r2, seq!['/']);
    } else {
        assert(child == leaf);
    }
    assert(try_list(entry.children, 1, m, s, 0, end) == Err::<Outcome<H>, RouteError>(
        RouteError::RouteNotFound,
    ));
    assert(try_list(entry.children, 0, m, s, 0, end) == resolve(child, m, s, 0, end));
    assert(entry_result(entry, key, m, s, 0, end) == resolve(child, m, s, 0, end));
    match root {
        Router::Router { paths: es, default_services } => {
            lemma_skip_entries(es, 0, k - d, key, m, s, 0, end);
            assert(try_entries(es, k - d, key, m, s, 0, end) == resolve(child, m, s, 0, end));
        },
        _ => {},
    }
}

proof fn lemma_next_kept_from(segs: Seq<PathSegment>, j: int)
    requires
        0 <= j,
    ensures
        j <= next_kept(segs, j),
    decreases segs.len() - j,
{
    if 0 <= j < segs.len() && dropped(segs, j) {
        lemma_next_kept_from(segs, j + 1);
    }
}

/// A chain whose leaf is bound to another method accepts no request.
pub proof fn lemma_mismatched_chain_declines<H>(
    node: Router<H>,
    segs: Seq<PathSegment>,
    j: int,
    leaf: Router<H>,
    m: Method,
    p: Seq<char>,
    base: int,
    pos: int,
)
    requires
        0 <= j,
        is_chain(node, segs, j, leaf),
        leaf matches Router::Service(method, _) && method is Some && method->0 != m,
    ensures
        resolve(node, m, p, base, pos) == Err::<Outcome<H>, RouteError>(RouteError::RouteNotFound),
    decreases segs.len() - j,
{
    if j >= segs.len() {
        assert(node == leaf);
    } else if dropped(segs, j) {
        lemma_mismatched_chain_declines(node, segs, j + 1, leaf, m, p, base, pos);
    } else {
        match node {
            Router::Router { paths, default_services } => {
                let start = segment_start(p, pos);
                let end = segment_end(p, pos);
                let key = p.subrange(start, end);
                match segs[j] {
                    PathSegment::Wildcard => {
                        assert(try_entries(paths, 0, key, m, p, base, end) == Err::<
                            Outcome<H>,
                            RouteError,
                        >(RouteError::RouteNotFound));
                        assert(default_services@.len() == 1);
                        assert(default_services@[0] == leaf);
                        assert(resolve(leaf, m, p, base, pos) == Err::<Outcome<H>, RouteError>(
                            RouteError::RouteNotFound,
                        ));
                        assert(try_list(default_services, 1, m, p, base, pos) == Err::<
                            Outcome<H>,
                            RouteError,
                        >(RouteError::RouteNotFound));
                    },
                    PathSegment::Literal(_) => {
                        let child = paths@[0].children@[0];
                        lemma_mismatched_chain_declines(child, segs, j + 1, leaf, m, p, base, end);
                        assert(try_list(paths@[0].children, 1, m, p, base, end) == Err::<
                            Outcome<H>,
                            RouteError,
                        >(RouteError::RouteNotFound));
                        assert(entry_result(paths@[0], key, m, p, base, end) == Err::<
                            Outcome<H>,
                            RouteError,
                        >(RouteError::RouteNotFound));
                        assert(try_entries(paths, 1, key, m, p, base, end) == Err::<
                            Outcome<H>,
                            RouteError,
                        >(RouteError::RouteNotFound));
                        assert(try_entries(paths, 0, key, m, p, base, end) == Err::<
                            Outcome<H>,
                            RouteError,
                        >(RouteError::RouteNotFound));
                        assert(default_services@.len() == 0);
                        assert(try_list(default_services, 0, m, p, base, pos) == Err::<
                            Outcome<H>,
                            RouteError,
                        >(RouteError::RouteNotFound));
                    },
                }
            },
            _ => {},
        }
    }
}

/// Every literal entry of the root before the `e`-th comes from a registration
/// before one whose entry is the `e`-th.
proof fn lemma_entry_owner<H>(routes: Seq<RoutePathService<H>>, k: int, e: int) -> (i: int)
    requires
        0 <= k <= routes.len(),
        0 <= e < k - count_defaults(routes.subrange(0, k)),
    ensures
        0 <= i < k,
        !is_default_key(routes[i].path.path@),
        i - count_defaults(routes.subrange(0, i)) == e,
    decreases k,
{
    lemma_count_defaults_step(routes, k - 1);
    let before = (k - 1) - count_defaults(routes.subrange(0, k - 1));
    if e < before {
        lemma_entry_owner(routes, k - 1, e)
    } else {
        k - 1
    }
}

/// Registrations bound to another method never answer: when every literal
/// registration before `k` requires a method other than the request's, the pattern
/// `s` of registration `k` reaches its service (as in `lemma_pattern_route_resolves`).
pub proof fn lemma_method_mismatch_falls_through<H>(
    s: Seq<char>,
    routes: Seq<RoutePathService<H>>,
    k: int,
    root: Router<H>,
    m: Method,
)
    requires
        !s.contains('%'),
        !s.contains('?'),
        forall|i: int| 0 <= i < split_on(s, '/').len() ==> #[trigger] split_on(s, '/')[i] != seq!['*'],
        compiled(s) is Ok,
        0 <= k < routes.len(),
        extends_with(Seq::empty(), routes[k].path.path@, compiled(s)->Ok_0.0),
        builds(routes, root),
        routes[k].method is None || routes[k].method == Some(m),
        !(routes[k].service is Deferred),
        forall|i: int|
            0 <= i < k && !is_default_key(#[trigger] routes[i].path.path@) ==> routes[i].method is Some
                && routes[i].method->0 != m,
    ensures
        top(root, m, s, 0) == Ok::<Outcome<H>, RouteError>(Outcome::Serve(routes[k].service, 0)),
{
    let key = s.subrange(segment_start(s, 0), segment_end(s, 0));
    let end = segment_end(s, 0);
    let paths = node_paths(root);
    assert forall|e: int| 0 <= e < k - count_defaults(routes.subrange(0, k)) implies #[trigger] entry_result(
        paths[e],
        key,
        m,
        s,
        0,
        end,
    ) == Err::<Outcome<H>, RouteError>(RouteError::RouteNotFound) by {
        let i = lemma_entry_owner(routes, k, e);
        if count_defaults(routes) > 0 {
            assert(placed_at(routes, i, paths, node_defaults(root)));
        } else {
            assert(placed_at(routes, i, paths, Seq::empty()));
        }
        let segs = routes[i].path.path@;
        let child = paths[e].children@[0];
        lemma_next_kept_from(segs, 0);
        lemma_mismatched_chain_declines(child, segs, next_kept(segs, 0) + 1, leaf_of(routes[i]), m, s, 0, end);
        assert(try_list(paths[e].children, 1, m, s, 0, end) == Err::<Outcome<H>, RouteError>(
            RouteError::RouteNotFound,
        ));
    }
    lemma_pattern_route_resolves(s, routes, k, root, m);
}

/// With no catch-all registered, a request that no literal entry of the root
/// accepts is answered by the synthesized `404 Not Found` / `Invalid path` response.
pub proof fn lemma_unmatched_gets_invalid_path<H>(
    routes: Seq<RoutePathService<H>>,
    root: Router<H>,
    m: Method,
    p: Seq<char>,
)
    requires
        builds(routes, root),
        count_defaults(routes) == 0,
        match root {
            Router::Router { paths, .. } => try_entries(
                paths,
                0,
                p.subrange(segment_start(p, 0), segment_end(p, 0)),
                m,
                p,
                0,
                segment_end(p, 0),
            ) == Err::<Outcome<H>, RouteError>(RouteError::RouteNotFound),
            _ => false,
        },
    ensures
        top(root, m, p, 0) matches Ok(Outcome::Serve(service, b)) && b == 0 && is_invalid_path_leaf(
            Router::Service(None, service),
        ),
{
    match root {
        Router::Router { paths, default_services } => {
            let leaf = default_services@[0];
            assert(is_invalid_path_leaf(leaf));
            assert(resolve(leaf, m, p, 0, 0) == Ok::<Outcome<H>, RouteError>(
                Outcome::Serve(leaf->Service_1, 0),
            ));
            assert(try_list(default_services, 1, m, p, 0, 0) == Err::<Outcome<H>, RouteError>(
                RouteError::RouteNotFound,
            ));
            assert(try_list(default_services, 0, m, p, 0, 0) == resolve(leaf, m, p, 0, 0));
            assert(resolve(root, m, p, 0, 0) == resolve(leaf, m, p, 0, 0));
        },
        _ => {},
    }
}

} // verus!
