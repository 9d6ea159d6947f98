use http_router::builder::RouterBuilder;
use http_router::escape::EscapeError;
use http_router::request::{HttpRequest, Method};
use http_router::response::{HttpResponse, Status};
use http_router::router::{compute_segments, RouteError, Router, Service, Target};
use http_router::service::{FileStep, ServeFileService};

type Handler = fn(&HttpRequest) -> HttpResponse;

fn ok(body: &str) -> HttpResponse {
    HttpResponse::new(Status::OK, vec![], body.to_string())
}

fn always_404(_request: &HttpRequest) -> HttpResponse {
    HttpResponse::new(Status::NotFound, vec![], "Could not find this file".to_string())
}

fn echo(request: &HttpRequest) -> HttpResponse {
    HttpResponse::new(Status::OK, vec![], request.path().clone())
}

fn get(path: &str) -> HttpRequest {
    HttpRequest::new(Method::GET, path.to_string(), vec![], vec![], vec![])
}

fn request(method: Method, path: &str) -> HttpRequest {
    HttpRequest::new(method, path.to_string(), vec![], vec![], vec![])
}

/// Runs what the router selected, as a server would (files are not read here).
fn respond(router: &Router<Handler>, req: &HttpRequest) -> HttpResponse {
    match router.handle(req).expect("no mount mismatch") {
        Target::Serve { service, request } => match service {
            Service::StaticResponse(s) => s.response().clone(),
            Service::Handler(h) => h(&request),
            Service::ServeFile(f) => match f.plan(request.path()) {
                FileStep::Read(p) => ServeFileService::file_response(Err(p)),
                FileStep::Answer(r) => r,
            },
            Service::Deferred(_) => panic!("a mount point is never the final service"),
        },
        Target::NotFound => http_router::router::not_found_response(),
    }
}

#[test]
fn segments_skip_leading_slashes() {
    let p: Vec<char> = "//abc/def".chars().collect();
    assert_eq!(compute_segments(&p, 0), (2, 5));
    assert_eq!(compute_segments(&p, 5), (6, 9));
    assert_eq!(compute_segments(&p, 9), (9, 9));
    let q: Vec<char> = "".chars().collect();
    assert_eq!(compute_segments(&q, 0), (0, 0));
}

#[test]
fn literal_route_matches_its_own_path() {
    let router = RouterBuilder::<Handler>::new()
        .route("/info")
        .static_res(ok("Ok"))
        .route("/a/b/c")
        .static_res(ok("abc"))
        .build()
        .unwrap();
    assert_eq!(respond(&router, &get("/info")).body(), "Ok");
    assert_eq!(respond(&router, &get("/a/b/c")).body(), "abc");
    assert_eq!(respond(&router, &get("/a/b")).body(), "Invalid path");
}

#[test]
fn deferred_router_sees_rewritten_path() {
    let sub = RouterBuilder::<Handler>::new().default().handler(echo).build().unwrap();
    let router = RouterBuilder::<Handler>::new().route("/api/*").defer(sub).build().unwrap();
    let full = HttpRequest::new(
        Method::GET,
        "/api/users".to_string(),
        vec![("q".to_string(), "1".to_string())],
        vec![],
        vec![7u8],
    );
    match router.handle(&full).unwrap() {
        Target::Serve { service, request } => {
            assert!(matches!(service, Service::Handler(_)));
            assert_eq!(request.path(), "users");
            assert_eq!(request.method(), &Method::GET);
            assert_eq!(request.query(), &vec![("q".to_string(), "1".to_string())]);
            assert_eq!(request.body(), &vec![7u8]);
        }
        Target::NotFound => panic!("expected the mounted router to answer"),
    }
    assert_eq!(respond(&router, &get("/api/users")).body(), "users");
}

#[test]
fn deferred_router_routes_on_rewritten_path() {
    let sub = RouterBuilder::<Handler>::new()
        .route("/users")
        .static_res(ok("user list"))
        .build()
        .unwrap();
    let router = RouterBuilder::<Handler>::new().route("/api/*").defer(sub).build().unwrap();
    assert_eq!(respond(&router, &get("/api/users")).body(), "user list");
    assert_eq!(respond(&router, &get("/api/other")).body(), "Invalid path");
}

#[test]
fn mount_prefix_mismatch_is_an_error() {
    let sub = RouterBuilder::<Handler>::new().default().handler(echo).build().unwrap();
    let router = RouterBuilder::<Handler>::new().route("/api/*").defer(sub).build().unwrap();
    assert!(matches!(router.handle(&get("/api")), Err(RouteError::MountMismatch)));
}

#[test]
fn method_mismatch_falls_through() {
    let router = RouterBuilder::<Handler>::new()
        .route("/x")
        .method(Method::POST)
        .static_res(ok("post"))
        .route("/x")
        .method(Method::GET)
        .static_res(ok("get"))
        .build()
        .unwrap();
    assert_eq!(respond(&router, &get("/x")).body(), "get");
    assert_eq!(respond(&router, &request(Method::POST, "/x")).body(), "post");
    assert_eq!(respond(&router, &request(Method::PUT, "/x")).body(), "Invalid path");
}

#[test]
fn file_route_refuses_traversal() {
    let router = RouterBuilder::<Handler>::new().default().file("./server".to_string()).build().unwrap();
    let r = respond(&router, &get("../secret"));
    assert_eq!(r.status().code(), 403);
    assert_ne!(r.body(), "secret contents");
}

#[test]
fn unmatched_path_gets_invalid_path() {
    let router = RouterBuilder::<Handler>::new().route("/info").static_res(ok("Ok")).build().unwrap();
    let r = respond(&router, &get("/missing"));
    assert_eq!(r.status(), &Status::NotFound);
    assert_eq!(r.body(), "Invalid path");
}

#[test]
fn end_to_end_static_and_default_handler() {
    let router = RouterBuilder::<Handler>::new()
        .route("/info")
        .static_res(ok("Ok"))
        .default()
        .handler(always_404)
        .build()
        .unwrap();
    let info = respond(&router, &get("/info"));
    assert_eq!(info.status().code(), 200);
    assert_eq!(info.body(), "Ok");
    let missing = respond(&router, &get("/missing"));
    assert_eq!(missing.status().code(), 404);
    assert_eq!(missing.body(), "Could not find this file");
}

#[test]
fn trailing_slash_and_coalesced_slashes() {
    let router = RouterBuilder::<Handler>::new()
        .route("/dir/")
        .static_res(ok("dir"))
        .route("//x//y")
        .static_res(ok("xy"))
        .build()
        .unwrap();
    assert_eq!(respond(&router, &get("/dir/")).body(), "dir");
    assert_eq!(respond(&router, &get("/dir")).body(), "dir");
    assert_eq!(respond(&router, &get("/dir/sub")).body(), "Invalid path");
    assert_eq!(respond(&router, &get("/x/y")).body(), "xy");
}

#[test]
fn bad_pattern_fails_build() {
    let built = RouterBuilder::<Handler>::new()
        .route("/ok")
        .static_res(ok("a"))
        .route("/%zz")
        .static_res(ok("b"))
        .build();
    assert!(matches!(built, Err(EscapeError::InvalidEscapeCharacter('z'))));
}

#[test]
fn empty_router_answers_not_found() {
    let router: Router<Handler> = Router::new(vec![], vec![]);
    assert!(matches!(router.handle(&get("/anything")), Ok(Target::NotFound)));
    assert_eq!(respond(&router, &get("/")).status().code(), 404);
}

#[test]
fn literal_entries_before_defaults() {
    let router = RouterBuilder::<Handler>::new()
        .default()
        .static_res(ok("default"))
        .route("/a")
        .static_res(ok("a"))
        .build()
        .unwrap();
    assert_eq!(respond(&router, &get("/a")).body(), "a");
    assert_eq!(respond(&router, &get("/b")).body(), "default");
}

#[test]
fn file_route_allows_paths_that_come_back_inside() {
    let router = RouterBuilder::<Handler>::new().default().file("./server".to_string()).build().unwrap();
    let r = respond(&router, &get("/../server/x.txt"));
    assert_eq!(r.status().code(), 404);
    assert_eq!(r.body(), "./server/x.txt");
}

#[test]
fn pattern_without_leading_slash_matches_itself() {
    let router = RouterBuilder::<Handler>::new()
        .route("/other")
        .static_res(ok("other"))
        .route("a//b")
        .static_res(ok("ab"))
        .route("c/")
        .static_res(ok("c"))
        .build()
        .unwrap();
    assert_eq!(respond(&router, &get("a//b")).body(), "ab");
    assert_eq!(respond(&router, &get("/a/b")).body(), "ab");
    assert_eq!(respond(&router, &get("c/")).body(), "c");
}
