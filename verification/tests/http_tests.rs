use ydcli_rs::http::{body_of_response, get_request, response_body, url_encode};

#[test]
fn url_encode_keeps_unreserved() {
    assert_eq!(url_encode("AZaz09-_.~"), "AZaz09-_.~");
}

#[test]
fn url_encode_escapes_other_bytes() {
    assert_eq!(url_encode("a b"), "a%20b");
    assert_eq!(url_encode("你好"), "%E4%BD%A0%E5%A5%BD");
    assert_eq!(url_encode("/?&="), "%2F%3F%26%3D");
    assert_eq!(url_encode(""), "");
}

#[test]
fn request_text() {
    assert_eq!(
        get_request("dict.youdao.com", "/search?q=world"),
        "GET /search?q=world HTTP/1.0\r\nHost: dict.youdao.com\r\nConnection: close\r\n\r\n"
    );
}

#[test]
fn body_after_first_blank_line() {
    assert_eq!(response_body("HTTP/1.0 200 OK\r\nA: b\r\n\r\n<html>\r\n\r\nx"), "<html>\r\n\r\nx");
    assert_eq!(response_body("no header end"), "");
    assert_eq!(response_body("\r\n\r\n"), "");
}

#[test]
fn raw_body_is_decoded() {
    assert_eq!(body_of_response(b"H\r\n\r\n\xe4\xb8\x96"), "世");
    assert_eq!(body_of_response(b"H\r\n\r\na\xffb"), "a\u{fffd}b");
}

#[test]
fn search_path_of_word() {
    assert_eq!(ydcli_rs::search_path("world"), "/search?q=world");
}
