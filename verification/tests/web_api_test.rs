use network_essentials::web_api::api_register::{
    is_known_method, split_path, ApiRegister, HttpConnectionDetails,
};
use network_essentials::web_api::http_server::{
    handle_connection, try_handle_connection, validate_path, HttpParsingError,
};

fn request(method: &str, path: &str) -> HttpConnectionDetails {
    let mut r = HttpConnectionDetails::new();
    r.set_method(method.to_string());
    r.set_path(path.to_string());
    r
}

#[test]
fn details_read_back() {
    let mut d = HttpConnectionDetails::new();
    assert_eq!(d.get_method(), "");
    d.set_method("POST".to_string());
    d.set_path("/x".to_string());
    d.set_data("payload".to_string());
    d.set_header("Host".to_string(), "a".to_string());
    d.set_header("Host".to_string(), "b".to_string());
    assert_eq!(d.get_method(), "POST");
    assert_eq!(d.get_path(), "/x");
    assert_eq!(d.get_data(), "payload");
    assert_eq!(d.get_header("Host"), Some("b".to_string()));
    assert_eq!(d.get_header("Other"), None);
}

#[test]
fn known_methods() {
    for m in ["GET", "PUT", "POST", "PATCH", "DELETE", "OPTIONS", "HEAD"] {
        assert!(is_known_method(m));
    }
    assert!(!is_known_method("get"));
    assert!(!is_known_method("CONNECT"));
    assert!(!is_known_method(""));
}

#[test]
fn path_splitting() {
    assert_eq!(split_path("noslash"), None);
    assert_eq!(split_path("/"), Some(("".to_string(), "/".to_string())));
    assert_eq!(split_path("/files"), Some(("files".to_string(), "/".to_string())));
    assert_eq!(
        split_path("/files/a/b"),
        Some(("files".to_string(), "/a/b".to_string()))
    );
}

#[test]
fn routing_by_method_and_path() {
    let mut reg: ApiRegister<u32> = ApiRegister::new(0);
    reg.register_function("GET", "/", 1);
    reg.register_function("POST", "/", 2);
    let (h, r) = reg.handle_http_request(request("GET", "/"));
    assert_eq!(h, 1);
    assert_eq!(r.get_path(), "/");
    assert_eq!(reg.handle_http_request(request("POST", "/")).0, 2);
    assert_eq!(reg.handle_http_request(request("GET", "/other")).0, 0);
    reg.register_function("GET", "/", 3);
    assert_eq!(reg.handle_http_request(request("GET", "/")).0, 3);
}

#[test]
fn routing_by_prefix() {
    let mut files: ApiRegister<u32> = ApiRegister::new(10);
    files.register_function("GET", "/", 11);
    files.register_function("GET", "/a", 12);
    let mut reg: ApiRegister<u32> = ApiRegister::new(0);
    reg.register_function("GET", "/files/a", 1);
    reg.register_prefix("files", files);
    let (h, r) = reg.handle_http_request(request("GET", "/files"));
    assert_eq!(h, 11);
    assert_eq!(r.get_path(), "/");
    let (h, r) = reg.handle_http_request(request("GET", "/files/a"));
    assert_eq!(h, 12);
    assert_eq!(r.get_path(), "/a");
    let (h, r) = reg.handle_http_request(request("GET", "/files/b/c"));
    assert_eq!(h, 10);
    assert_eq!(r.get_path(), "/b/c");
}

#[test]
fn prefix_with_slash_is_not_a_segment() {
    let mut files: ApiRegister<u32> = ApiRegister::new(10);
    files.register_function("GET", "/", 11);
    let mut reg: ApiRegister<u32> = ApiRegister::new(0);
    reg.register_prefix("/files", files);
    let (h, r) = reg.handle_http_request(request("GET", "/files"));
    assert_eq!(h, 0);
    assert_eq!(r.get_path(), "/files");
}

#[test]
fn paths_that_may_be_served() {
    assert!(validate_path(&"/a/b.c".to_string()));
    assert!(validate_path(&"".to_string()));
    assert!(validate_path(&".".to_string()));
    assert!(!validate_path(&"/a/../b".to_string()));
    assert!(!validate_path(&"..".to_string()));
    assert!(!validate_path(&"/<script>".to_string()));
    assert!(!validate_path(&"/a>".to_string()));
}

fn chunks(parts: &[&str]) -> Vec<Vec<u8>> {
    parts.iter().map(|p| p.as_bytes().to_vec()).collect()
}

#[test]
fn reads_a_request() {
    let c = chunks(&["GET /index HTTP/1.1\r\nHost: x\r\nAccept:   y z\r\n\r\nthe body"]);
    let d = handle_connection(&c).expect("valid request");
    assert_eq!(d.get_method(), "GET");
    assert_eq!(d.get_path(), "/index");
    assert_eq!(d.get_header("Host"), Some("x".to_string()));
    assert_eq!(d.get_header("Accept"), Some("y z".to_string()));
    assert_eq!(d.get_data(), "the body");
}

#[test]
fn reads_a_request_across_chunks() {
    let c = chunks(&["GE", "T /in", "dex HTTP/1.1", "\r\nHo", "st: x\r\n", "\r", "\nbo", "dy"]);
    let d = handle_connection(&c).expect("valid request");
    assert_eq!(d.get_method(), "GET");
    assert_eq!(d.get_path(), "/index");
    assert_eq!(d.get_header("Host"), Some("x".to_string()));
    assert_eq!(d.get_data(), "body");
}

#[test]
fn carriage_return_at_chunk_end_ends_reading() {
    let c = chunks(&["GET / HTTP/1.1\r", "\nHost: x\r\n\r\nbody"]);
    let d = handle_connection(&c).expect("valid request");
    assert_eq!(d.get_path(), "/");
    assert_eq!(d.get_header("Host"), None);
    assert_eq!(d.get_data(), "");
}

#[test]
fn empty_chunk_ends_reading() {
    let c = chunks(&["GET / HTTP/1.1\r\nA: 1\r\n", "", "B: 2\r\n"]);
    let d = handle_connection(&c).expect("valid request");
    assert_eq!(d.get_header("A"), Some("1".to_string()));
    assert_eq!(d.get_header("B"), None);
}

#[test]
fn line_without_carriage_return_becomes_body() {
    let d = handle_connection(&chunks(&["GET / HTTP/1.1"])).expect("valid request");
    assert_eq!(d.get_data(), "HTTP/1.1");
}

#[test]
fn bytes_become_latin1_characters() {
    let c = vec![b"GET / X\r\n\r\n".to_vec(), vec![0xe9u8]];
    let d = handle_connection(&c).expect("valid request");
    assert_eq!(d.get_data(), "\u{e9}");
}

#[test]
fn forbidden_path() {
    let c = chunks(&["GET /a/../b HTTP/1.1\r\n\r\n"]);
    assert_eq!(handle_connection(&c).err(), Some(HttpParsingError::ForbiddenCharacterInPath));
}

#[test]
fn unknown_method() {
    let c = chunks(&["FETCH / HTTP/1.1\r\n\r\n"]);
    assert_eq!(try_handle_connection(&c).err(), Some(HttpParsingError::UnrecognizedMethod));
}

#[test]
fn no_bytes_gives_empty_details() {
    let d = handle_connection(&Vec::new()).expect("valid request");
    assert_eq!(d.get_method(), "");
    assert_eq!(d.get_path(), "");
    assert_eq!(d.get_data(), "");
}

#[test]
fn checked_reading_gives_the_same_details() {
    let c = chunks(&["PUT /p HTTP/1.1\r\nA:  v\r\nA: w\r\n\r\nx"]);
    let d = try_handle_connection(&c).expect("valid request");
    assert_eq!(d.get_method(), "PUT");
    assert_eq!(d.get_header("A"), Some("w".to_string()));
    assert_eq!(d.get_data(), "x");
}
