use ploscaru::assets::AssetBackend;
use ploscaru::assets::AssetEntry;
use ploscaru::assets::cache_control_for;
use ploscaru::assets::disk_probe_target;
use ploscaru::assets::load_candidate;
use ploscaru::assets::load_not_found_html;
use ploscaru::assets::make_payload;
use ploscaru::assets::path_within_root;
use ploscaru::assets::resolve_embedded;

fn entry(path: &str, body: &str) -> AssetEntry {
    AssetEntry {
        path: path.to_string(),
        body: body.as_bytes().to_vec(),
    }
}

fn table() -> Vec<AssetEntry> {
    vec![
        entry("index.html", "<html>home</html>"),
        entry("about.html", "<html>about</html>"),
        entry("404.html", "<html>missing</html>"),
        entry("style.css", "body {}"),
    ]
}

#[test]
fn cache_control_long_lived_for_static_media() {
    let immutable = Some("public, max-age=31536000, immutable".to_string());
    assert_eq!(cache_control_for("style.css"), immutable);
    assert_eq!(cache_control_for("img/logo.png"), immutable);
    assert_eq!(cache_control_for("fonts/a.woff2"), immutable);
    assert_eq!(cache_control_for("photo.JPEG"), immutable);
}

#[test]
fn cache_control_short_for_scripts_and_html() {
    assert_eq!(
        cache_control_for("app.js"),
        Some("public, max-age=86400".to_string())
    );
    assert_eq!(
        cache_control_for("index.html"),
        Some("public, max-age=0, must-revalidate, stale-while-revalidate=30".to_string())
    );
}

#[test]
fn cache_control_none_for_unknown_or_missing_extension() {
    assert_eq!(cache_control_for("data.bin"), None);
    assert_eq!(cache_control_for("README"), None);
    assert_eq!(cache_control_for(".gitignore"), None);
}

#[test]
fn content_type_follows_extension() {
    let css = make_payload("style.css", b"body {}".to_vec());
    assert_eq!(css.content_type, "text/css");
    let html = make_payload("index.html", b"<html/>".to_vec());
    assert_eq!(html.content_type, "text/html");
    let unknown = make_payload("blob.unknownext", b"x".to_vec());
    assert_eq!(unknown.content_type, "application/octet-stream");
}

#[test]
fn embedded_resolves_root_and_about() {
    let t = table();
    let home = resolve_embedded(&t, "/").expect("root should resolve");
    assert_eq!(home.body, b"<html>home</html>".to_vec());
    assert_eq!(home.content_type, "text/html");

    let about = resolve_embedded(&t, "/about").expect("pretty url should resolve");
    assert_eq!(about.body, b"<html>about</html>".to_vec());

    let css = resolve_embedded(&t, "/style.css").expect("exact file should resolve");
    assert_eq!(css.body, b"body {}".to_vec());

    assert!(resolve_embedded(&t, "/does-not-exist").is_none());
}

#[test]
fn embedded_prefers_exact_match_over_fallbacks() {
    let mut t = table();
    t.insert(0, entry("about", "raw file wins"));
    let got = resolve_embedded(&t, "/about").expect("should resolve");
    assert_eq!(got.body, b"raw file wins".to_vec());
}

#[test]
fn embedded_falls_back_to_directory_index() {
    let t = vec![entry("docs/index.html", "<html>docs</html>")];
    let got = resolve_embedded(&t, "/docs").expect("directory index should resolve");
    assert_eq!(got.body, b"<html>docs</html>".to_vec());
}

#[test]
fn embedded_rejects_traversal_requests() {
    let t = table();
    assert!(resolve_embedded(&t, "/../404.html").is_none());
    assert!(load_candidate(&t, "../404.html").is_none());
}

#[test]
fn not_found_page_comes_from_fixed_path() {
    let t = table();
    let page = load_not_found_html(&t).expect("404 page exists");
    assert_eq!(page.body, b"<html>missing</html>".to_vec());
    assert_eq!(page.content_type, "text/html");
    assert!(load_not_found_html(&Vec::new()).is_none());
}

#[test]
fn disk_probe_target_joins_under_root() {
    assert_eq!(
        disk_probe_target("static", "css/app.css"),
        Some(("static/css/app.css".to_string(), "css/app.css".to_string()))
    );
    assert_eq!(
        disk_probe_target("static/", "a.html"),
        Some(("static/a.html".to_string(), "a.html".to_string()))
    );
    assert_eq!(
        disk_probe_target("static", "a/../b.html"),
        Some(("static/b.html".to_string(), "b.html".to_string()))
    );
    assert_eq!(disk_probe_target("static", "../evil"), None);
}

#[test]
fn disk_backend_without_canonical_root_is_degraded() {
    let degraded = AssetBackend::Disk {
        root: "static_old".to_string(),
        canonical_root: None,
    };
    assert!(degraded.is_degraded());
    let live = AssetBackend::Disk {
        root: "static_old".to_string(),
        canonical_root: Some("/srv/static_old".to_string()),
    };
    assert!(!live.is_degraded());
    let embedded = AssetBackend::Embedded { entries: table() };
    assert!(!embedded.is_degraded());
}

#[test]
fn containment_is_by_components_not_by_string_prefix() {
    assert!(path_within_root("/srv/static", "/srv/static/css/app.css"));
    assert!(path_within_root("/srv/static", "/srv/static"));
    assert!(path_within_root("/", "/anything"));
    assert!(!path_within_root("/srv/static", "/etc/passwd"));
    // A sibling whose name merely extends the root's is outside it.
    assert!(!path_within_root("/srv/static", "/srv/static-evil/x"));
    assert!(!path_within_root("/srv/static", "/srv"));
}
