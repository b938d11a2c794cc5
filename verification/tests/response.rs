use ploscaru::assets::make_payload;
use ploscaru::response::NotFoundJson;
use ploscaru::response::json_not_found_response;
use ploscaru::response::prefers_html;
use ploscaru::response::static_response;

#[test]
fn prefers_html_detects_html_accept_values() {
    assert!(prefers_html("text/html,application/xhtml+xml;q=0.9"));
    assert!(prefers_html("TEXT/HTML"));
    assert!(prefers_html("application/xhtml+xml"));
    assert!(!prefers_html("application/json"));
    assert!(!prefers_html("*/*"));
    assert!(!prefers_html(""));
}

#[test]
fn hit_returns_ok_with_payload_headers() {
    let payload = make_payload("style.css", b"body {}".to_vec());
    let r = static_response(Some(payload), None, "*/*", false);
    assert_eq!(r.status, 200);
    assert_eq!(r.content_type, "text/css");
    assert_eq!(
        r.cache_control,
        Some("public, max-age=31536000, immutable".to_string())
    );
    assert_eq!(r.content_length, 7);
    assert_eq!(r.body, b"body {}".to_vec());
}

#[test]
fn head_keeps_headers_and_drops_body() {
    let payload = make_payload("style.css", b"body {}".to_vec());
    let get = static_response(Some(payload), None, "*/*", false);
    let payload = make_payload("style.css", b"body {}".to_vec());
    let head = static_response(Some(payload), None, "*/*", true);
    assert_eq!(head.status, get.status);
    assert_eq!(head.content_type, get.content_type);
    assert_eq!(head.cache_control, get.cache_control);
    assert_eq!(head.content_length, get.content_length);
    assert!(head.body.is_empty());
}

#[test]
fn miss_with_html_accept_serves_not_found_page() {
    let page = make_payload("404.html", b"<html>missing</html>".to_vec());
    let r = static_response(None, Some(page), "text/html", false);
    assert_eq!(r.status, 404);
    assert!(r.content_type.starts_with("text/html"));
    assert_eq!(r.body, b"<html>missing</html>".to_vec());
}

#[test]
fn miss_without_html_accept_serves_json() {
    for accept in ["application/json", "*/*"] {
        let page = make_payload("404.html", b"<html>missing</html>".to_vec());
        let r = static_response(None, Some(page), accept, false);
        assert_eq!(r.status, 404);
        assert_eq!(r.content_type, "application/json");
        let parsed: serde_json::Value =
            serde_json::from_slice(&r.body).expect("json parse should work");
        assert_eq!(parsed["error"], "not_found");
    }
}

#[test]
fn miss_without_not_found_page_serves_json_even_for_html_clients() {
    let r = static_response(None, None, "text/html", false);
    assert_eq!(r.status, 404);
    assert_eq!(r.content_type, "application/json");
    assert_eq!(r.body, b"{\"error\":\"not_found\"}".to_vec());
}

#[test]
fn json_body_spells_out_the_not_found_record() {
    // The fixed JSON body is exactly the encoding of this record.
    let record = NotFoundJson {
        error: "not_found".to_string(),
    };
    let r = json_not_found_response(false);
    let parsed: serde_json::Value =
        serde_json::from_slice(&r.body).expect("json parse should work");
    assert_eq!(parsed["error"], record.error.as_str());
}

#[test]
fn json_not_found_head_has_length_but_no_body() {
    let r = json_not_found_response(true);
    assert_eq!(r.status, 404);
    assert_eq!(r.content_length, b"{\"error\":\"not_found\"}".len());
    assert!(r.body.is_empty());
}
