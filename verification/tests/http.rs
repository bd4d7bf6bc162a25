use caravan::http::{
    event_line, event_stream_headers, json_response, page_response, route_request, route_text, Route,
};

fn chat_prompt(request: &str) -> String {
    match route_text(request) {
        Route::Chat(prompt) => prompt,
        other => panic!("{:?}", other),
    }
}

#[test]
fn requests_are_told_apart() {
    assert!(matches!(route_text("GET /api/status HTTP/1.1\r\nHost: x\r\n\r\n"), Route::Status));
    assert!(matches!(route_text("GET / HTTP/1.1\r\n\r\n"), Route::Page));
    assert!(matches!(route_text("POST /api/status HTTP/1.1\r\n\r\n"), Route::Page));
    assert!(matches!(route_text("GET /api/chat HTTP/1.1\r\n\r\n"), Route::Page));
    assert!(matches!(route_text("GET /api/status?x HTTP/1.1\r\n\r\n"), Route::Page));
    assert!(matches!(route_text("get /api/status"), Route::Page));
    assert!(matches!(route_text("  GET\t/api/status"), Route::Status));
    assert!(matches!(route_text("POST /api/chat"), Route::Chat(ref p) if p.is_empty()));
    assert!(matches!(route_text(""), Route::Ignore));
    assert!(matches!(route_text("GET"), Route::Ignore));
    assert!(matches!(route_text("GET\r\n/api/status"), Route::Ignore));
}

#[test]
fn the_prompt_is_taken_from_the_body() {
    let head = "POST /api/chat HTTP/1.1\r\nHost: x\r\n\r\n";
    let prompt = |body: &str| chat_prompt(&format!("{}{}", head, body));
    assert_eq!(prompt("{\"prompt\":\"Hello there\"}"), "Hello there");
    assert_eq!(prompt("{\"prompt\":\"\"}"), "");
    assert_eq!(prompt("{\"x\":1,\"prompt\":\"é🐪\",\"y\":\"z\"}"), "é🐪");
    assert_eq!(prompt("{\"prompt\":\"a\",\"prompt\":\"b\"}"), "a");
    assert_eq!(prompt("{\"prompt\":\"say \\\"hi\\\"\"}"), "say \\");
    assert_eq!(prompt("{\"prompt\": \"spaced\"}"), "");
    assert_eq!(prompt("{\"prompt\":\"open"), "");
    assert_eq!(prompt(""), "");
    assert_eq!(prompt("{\"prompt\":\"a\r\n\r\nb\"}"), "");
    assert_eq!(prompt("{\"prompt\":\"a\"}\r\n\r\n{\"prompt\":\"b\"}"), "a");
}

#[test]
fn a_prompt_before_the_empty_line_does_not_count() {
    assert_eq!(chat_prompt("POST /api/chat X\r\nA: {\"prompt\":\"x\"}\r\n\r\nbody"), "");
    assert_eq!(chat_prompt("POST /api/chat X\r\n\"prompt\":\"x\""), "");
}

#[test]
fn bytes_are_read_as_text() {
    assert!(matches!(route_request(b"GET /api/status HTTP/1.1\r\n\r\n"), Route::Status));
    let mut bytes = b"POST /api/chat X\r\n\r\n{\"prompt\":\"a".to_vec();
    bytes.push(0xff);
    bytes.extend_from_slice("é\"}".as_bytes());
    match route_request(&bytes) {
        Route::Chat(prompt) => assert_eq!(prompt, "a\u{fffd}é"),
        other => panic!("{:?}", other),
    }
    assert!(matches!(route_request(b""), Route::Ignore));
}

#[test]
fn the_length_is_counted_in_bytes() {
    assert_eq!(
        json_response("{\"a\":\"é\"}"),
        "HTTP/1.1 200 OK\r\nContent-Type: application/json\r\nAccess-Control-Allow-Origin: *\r\nContent-Length: 10\r\n\r\n{\"a\":\"é\"}"
    );
    assert_eq!(
        page_response("<p>🐪</p>"),
        "HTTP/1.1 200 OK\r\nContent-Type: text/html\r\nContent-Length: 11\r\n\r\n<p>🐪</p>"
    );
    assert!(json_response("").ends_with("Content-Length: 0\r\n\r\n"));
}

#[test]
fn events_are_framed() {
    assert_eq!(event_line("hi"), "data: hi\n\n");
    assert_eq!(
        event_stream_headers(),
        "HTTP/1.1 200 OK\r\nContent-Type: text/event-stream\r\nCache-Control: no-cache\r\nConnection: keep-alive\r\nAccess-Control-Allow-Origin: *\r\n\r\n"
    );
}
