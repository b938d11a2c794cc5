use ploscaru::paths::candidate_paths;
use ploscaru::paths::normalize_request_path;
use ploscaru::paths::sanitize_relative_path;

#[test]
fn normalize_root_to_index() {
    assert_eq!(normalize_request_path("/"), Some("index.html".to_string()));
}

#[test]
fn normalize_extensionless_path() {
    assert_eq!(normalize_request_path("/about"), Some("about".to_string()));
}

#[test]
fn normalize_rejects_parent_escape() {
    assert_eq!(normalize_request_path("../../etc/passwd"), None);
}

#[test]
fn candidate_chain_for_extensionless() {
    let got = candidate_paths("about");
    assert_eq!(got, vec!["about", "about.html", "about/index.html"]);
}

#[test]
fn candidate_chain_for_file_with_extension() {
    let got = candidate_paths("style.css");
    assert_eq!(got, vec!["style.css"]);
}

#[test]
fn normalize_empty_to_index() {
    assert_eq!(normalize_request_path(""), Some("index.html".to_string()));
}

#[test]
fn normalize_trims_whitespace() {
    assert_eq!(normalize_request_path("  /about  "), Some("about".to_string()));
    assert_eq!(normalize_request_path("   "), Some("index.html".to_string()));
}

#[test]
fn normalize_nested_path() {
    assert_eq!(
        normalize_request_path("/css/app.css"),
        Some("css/app.css".to_string())
    );
}

#[test]
fn sanitize_drops_empty_and_current_segments() {
    assert_eq!(sanitize_relative_path("a//b"), Some("a/b".to_string()));
    assert_eq!(sanitize_relative_path("a/./b"), Some("a/b".to_string()));
    assert_eq!(sanitize_relative_path("./a"), Some("a".to_string()));
    assert_eq!(sanitize_relative_path("a/b/"), Some("a/b".to_string()));
}

#[test]
fn sanitize_resolves_parent_segments_inside() {
    assert_eq!(sanitize_relative_path("a/../b"), Some("b".to_string()));
    assert_eq!(sanitize_relative_path("a/b/../../c"), Some("c".to_string()));
}

#[test]
fn sanitize_rejects_escapes() {
    assert_eq!(sanitize_relative_path(".."), None);
    assert_eq!(sanitize_relative_path("a/../../b"), None);
    assert_eq!(sanitize_relative_path("../a/very/long/path"), None);
}

#[test]
fn sanitize_strips_leading_slashes() {
    assert_eq!(sanitize_relative_path("/a/b"), Some("a/b".to_string()));
    assert_eq!(sanitize_relative_path(""), Some("".to_string()));
}

#[test]
fn candidate_chain_keeps_nested_dirs() {
    let got = candidate_paths("docs/intro");
    assert_eq!(
        got,
        vec!["docs/intro", "docs/intro.html", "docs/intro/index.html"]
    );
}

#[test]
fn candidate_chain_dot_in_directory_only() {
    // The decision looks at the final segment alone: a dot in an earlier
    // segment does not suppress the fallback chain.
    let got = candidate_paths("v1.2/about");
    assert_eq!(
        got,
        vec!["v1.2/about", "v1.2/about.html", "v1.2/about/index.html"]
    );
}
