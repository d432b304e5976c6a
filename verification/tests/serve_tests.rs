use fink_site::serve::{mime_type, request_path};

fn s(x: &str) -> String {
    x.to_string()
}

#[test]
fn request_paths() {
    assert_eq!(request_path("/"), Some(s("")));
    assert_eq!(request_path("/docs/"), Some(s("docs/")));
    assert_eq!(request_path("/style.css?v=3"), Some(s("style.css")));
    assert_eq!(request_path("/my%20page/"), Some(s("my page/")));
    assert_eq!(request_path("//a"), Some(s("a")));
    assert_eq!(request_path("/a?b?c"), Some(s("a")));
    assert_eq!(request_path("?q"), Some(s("")));
}

#[test]
fn paths_leaving_the_build_directory_are_refused() {
    assert_eq!(request_path("/../Cargo.toml"), None);
    assert_eq!(request_path("/docs/../../x"), None);
    assert_eq!(request_path("/a/.."), None);
    assert_eq!(request_path("/..?q=1"), None);
    assert_eq!(request_path("/a..b/..c/d../"), Some(s("a..b/..c/d../")));
    assert_eq!(request_path("/./a"), Some(s("./a")));
}

#[test]
fn content_types() {
    assert_eq!(mime_type("html"), "text/html; charset=utf-8");
    assert_eq!(mime_type("css"), "text/css; charset=utf-8");
    assert_eq!(mime_type("js"), "application/javascript");
    assert_eq!(mime_type("png"), "image/png");
    assert_eq!(mime_type("svg"), "image/svg+xml");
    assert_eq!(mime_type("ico"), "image/x-icon");
    assert_eq!(mime_type("wasm"), "application/wasm");
    assert_eq!(mime_type("woff2"), "font/woff2");
    assert_eq!(mime_type("ttf"), "font/ttf");
    assert_eq!(mime_type("txt"), "application/octet-stream");
    assert_eq!(mime_type(""), "application/octet-stream");
    assert_eq!(mime_type("HTML"), "application/octet-stream");
}
