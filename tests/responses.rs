use http_router::response::{
    BuildError, HttpResponse, HttpResponseBuilder, HttpVersion, ResponseField, Status,
};
use http_router::service::{FileStep, ServeFileService, StaticResponseService};
use http_router::router::not_found_response;

#[test]
fn status_codes_and_messages() {
    assert_eq!(Status::OK.code(), 200);
    assert_eq!(Status::Forbidden.code(), 403);
    assert_eq!(Status::NotFound.code(), 404);
    assert_eq!(Status::Custom(418, "Teapot".to_string()).code(), 418);
    assert_eq!(Status::OK.message(), "Ok");
    assert_eq!(Status::Forbidden.message(), "Forbidden");
    assert_eq!(Status::NotFound.message(), "Not Found");
    assert_eq!(Status::Custom(418, "Teapot".to_string()).message(), "Teapot");
}

#[test]
fn version_text() {
    assert_eq!(HttpVersion::Http1_1.to_string(), "HTTP/1.1");
}

#[test]
fn builder_requires_status_and_body() {
    assert_eq!(
        HttpResponseBuilder::new().body("x".to_string()).build().err(),
        Some(BuildError::MissingField(ResponseField::Status))
    );
    assert_eq!(
        HttpResponseBuilder::new().status(Status::OK).build().err(),
        Some(BuildError::MissingField(ResponseField::Body))
    );
    let r = HttpResponseBuilder::new()
        .header("A".to_string(), "1".to_string())
        .status(Status::OK)
        .body("Ok".to_string())
        .build()
        .unwrap();
    assert_eq!(r.status(), &Status::OK);
    assert_eq!(r.body(), "Ok");
    assert_eq!(r.headers(), &vec![("A".to_string(), "1".to_string())]);
}

#[test]
fn static_service_hands_out_its_response() {
    let s = StaticResponseService::new(HttpResponse::new(Status::OK, vec![], "hi".to_string()));
    assert_eq!(s.response().body(), "hi");
    assert_eq!(s.response().status(), &Status::OK);
}

#[test]
fn serve_file_refuses_escape_from_sandbox() {
    let s = ServeFileService::new("./server".to_string());
    assert_eq!(s.locate("../secret"), None);
    assert_eq!(s.locate("/a/../../secret"), None);
    let r = ServeFileService::forbidden();
    assert_eq!(r.status().code(), 403);
    assert!(r.body().starts_with("403 Forbidden"));
}

#[test]
fn serve_file_resolves_inside_sandbox() {
    let s = ServeFileService::new("./server".to_string());
    assert_eq!(s.locate("/index.html"), Some("./server/index.html".to_string()));
    assert_eq!(s.locate("a/./b/../c.txt"), Some("./server/a/c.txt".to_string()));
    assert_eq!(s.locate("//x//y/"), Some("./server/x/y".to_string()));
    assert_eq!(s.locate(""), Some("./server".to_string()));
    assert_eq!(s.locate("a/../.."), None);
}

#[test]
fn file_read_results_become_responses() {
    let ok = ServeFileService::file_response(Ok("contents".to_string()));
    assert_eq!(ok.status(), &Status::OK);
    assert_eq!(ok.body(), "contents");
    let missing = ServeFileService::file_response(Err("NotFound".to_string()));
    assert_eq!(missing.status(), &Status::NotFound);
    assert_eq!(missing.body(), "NotFound");
}

#[test]
fn root_exhaustion_response() {
    let r = not_found_response();
    assert_eq!(r.status().code(), 404);
    assert_eq!(r.body(), "404 Not Found");
}

#[test]
fn sandbox_is_judged_on_the_resolved_path() {
    let s = ServeFileService::new("./server".to_string());
    assert_eq!(s.locate("/../server/x"), Some("./server/x".to_string()));
    assert_eq!(s.locate("/../other/x"), None);
    let nested = ServeFileService::new("/srv/www/".to_string());
    assert_eq!(nested.locate("a/../../www/b"), Some("/srv/www//b".to_string()));
    assert_eq!(nested.locate("../../srv/www/c"), Some("/srv/www//c".to_string()));
}

#[test]
fn plan_picks_read_or_forbidden() {
    let s = ServeFileService::new("./server".to_string());
    assert!(matches!(s.plan("/index.html"), FileStep::Read(f) if f == "./server/index.html"));
    match s.plan("/../secret") {
        FileStep::Answer(r) => {
            assert_eq!(r.status().code(), 403);
            assert_eq!(r.body(), ServeFileService::forbidden().body());
        }
        FileStep::Read(_) => panic!("a path outside the sandbox must not be read"),
    }
}
