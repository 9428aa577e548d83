use leptos_csr_preload::serving::{
    choose_response, path_looks_like_spa_route, path_names_index_page, plan_request,
    request_accepts_html, respond, AcceptHeader, PrecompressedAssets, ServeAction, Served,
    StaticOutcome,
};
use leptos_csr_preload::{
    IndexHtmlTemplate, PreloadIndex, PreloadRegistration, PreloadRegistry, SpaFallbackBuilder, TrunkWasmSplitManifest,
};
use std::path::PathBuf;

fn strings(items: &[&str]) -> Vec<String> {
    items.iter().map(|item| item.to_string()).collect()
}

fn manifest() -> TrunkWasmSplitManifest {
    TrunkWasmSplitManifest::from_entries(
        "__wasm_split-hash.js".to_string(),
        vec![
            ("global_badge_111".to_string(), strings(&["split-global-badge.wasm"])),
            ("user_route_123".to_string(), strings(&["chunk-user.wasm", "split-user.wasm"])),
            ("load_user_metrics_456".to_string(), strings(&["split-metrics.wasm"])),
            ("reports_route_789".to_string(), strings(&["split-reports.wasm"])),
            ("files_route_987".to_string(), strings(&["split-files.wasm"])),
        ],
    )
}

fn registration(source_name: &str, preload_path: Option<&str>, split_prefix: &str) -> PreloadRegistration {
    PreloadRegistration {
        source_name: source_name.to_string(),
        preload_path: preload_path.map(|path| path.to_string()),
        split_prefix: split_prefix.to_string(),
    }
}

fn registry() -> PreloadRegistry {
    PreloadRegistry::new(vec![
        registration("global_badge", None, "global_badge_"),
        registration("user_route", Some("/users/:id"), "user_route_"),
        registration("load_user_metrics", Some("/users/:id"), "load_user_metrics_"),
        registration("reports_route", Some("/reports/:id?"), "reports_route_"),
        registration("files_route", Some("/files/*rest"), "files_route_"),
    ])
}

fn index() -> PreloadIndex {
    PreloadIndex::from_registry(manifest(), &registry()).unwrap()
}

fn html_accept() -> AcceptHeader {
    AcceptHeader::Text("text/html,application/xhtml+xml;q=0.9".to_string())
}

#[test]
fn spa_route_detection_looks_at_the_last_segment() {
    assert!(path_looks_like_spa_route("/"));
    assert!(path_looks_like_spa_route(""));
    assert!(path_looks_like_spa_route("/about"));
    assert!(path_looks_like_spa_route("/users/alice/"));
    assert!(path_looks_like_spa_route("/users/alice?file=a.txt"));
    assert!(path_looks_like_spa_route("/v1.2/page"));
    assert!(!path_looks_like_spa_route("/assets/app.js"));
    assert!(!path_looks_like_spa_route("/file.txt/"));
    assert!(!path_looks_like_spa_route("favicon.ico"));
}

#[test]
fn html_acceptance_needs_get_or_head_and_an_html_accept() {
    assert!(request_accepts_html("GET", &AcceptHeader::Absent));
    assert!(request_accepts_html("HEAD", &html_accept()));
    assert!(request_accepts_html("GET", &AcceptHeader::Text("application/xhtml+xml".to_string())));
    assert!(!request_accepts_html("POST", &AcceptHeader::Absent));
    assert!(!request_accepts_html("get", &AcceptHeader::Absent));
    assert!(!request_accepts_html("GET", &AcceptHeader::Text("application/json".to_string())));
    assert!(!request_accepts_html("GET", &AcceptHeader::Unreadable));
}

fn template() -> IndexHtmlTemplate {
    IndexHtmlTemplate::parse(
        "<html><head><link rel=\"modulepreload\" href=\"/__wasm_split-hash.js\"></head><body></body></html>",
    )
}

/// The page a request gets when its static lookup misses, or `None` when the miss is passed on.
fn fallback_page(path: &str, method: &str, accept: &AcceptHeader) -> Option<String> {
    let plan = plan_request(&index(), path, method, accept);
    match choose_response(StaticOutcome::OtherStatus, plan.should_fallback, plan.serves_index_page) {
        ServeAction::RenderIndex => Some(template().render("/", plan.preloads.as_ref())),
        _ => None,
    }
}

#[test]
fn asset_404s_do_not_fallback_to_index_html() {
    let plan = plan_request(&index(), "/missing.js", "GET", &AcceptHeader::Absent);
    assert!(!plan.should_fallback);
    assert_eq!(choose_response(StaticOutcome::OtherStatus, plan.should_fallback, plan.serves_index_page), ServeAction::StaticResponse);
    assert!(fallback_page("/assets/missing.js", "GET", &html_accept()).is_none());
}

#[test]
fn route_requests_inject_matching_route_and_function_preloads() {
    let plan = plan_request(&index(), "/users/alice", "GET", &AcceptHeader::Absent);
    assert!(plan.should_fallback);
    let preloads = plan.preloads.clone().unwrap();
    assert_eq!(preloads.split_keys, strings(&["global_badge_111", "load_user_metrics_456", "user_route_123"]));
    let body = fallback_page("/users/alice", "GET", &AcceptHeader::Absent).unwrap();
    assert!(body.contains("split-global-badge.wasm"));
    assert!(body.contains("split-user.wasm"));
    assert!(body.contains("split-metrics.wasm"));
    assert_eq!(body.matches("/__wasm_split-hash.js").count(), 1);
}

#[test]
fn non_html_accept_header_keeps_non_navigation_requests_out_of_spa_fallback() {
    let accept = AcceptHeader::Text("application/json".to_string());
    let plan = plan_request(&index(), "/users/alice", "GET", &accept);
    assert!(!plan.should_fallback);
    assert!(fallback_page("/users/alice", "GET", &accept).is_none());
}

#[test]
fn non_get_methods_do_not_fallback_to_html() {
    let accept = AcceptHeader::Text("text/html".to_string());
    let plan = plan_request(&index(), "/users/alice", "POST", &accept);
    assert!(!plan.should_fallback);
    assert!(fallback_page("/users/alice", "POST", &accept).is_none());
}

#[test]
fn optional_parameter_routes_inject_preloads() {
    let plan = plan_request(&index(), "/reports/2026", "GET", &AcceptHeader::Absent);
    assert!(plan.should_fallback);
    assert_eq!(plan.preloads.unwrap().split_keys, strings(&["global_badge_111", "reports_route_789"]));
    let body = fallback_page("/reports/2026", "GET", &AcceptHeader::Absent).unwrap();
    assert!(body.contains("split-global-badge.wasm"));
    assert!(body.contains("split-reports.wasm"));
}

#[test]
fn splat_routes_inject_preloads() {
    let body = fallback_page("/files/assets/icons/logo.svg", "GET", &AcceptHeader::Absent).unwrap();
    assert!(body.contains("split-global-badge.wasm"));
    assert!(body.contains("split-files.wasm"));
}

#[test]
fn unknown_client_routes_fall_back_with_global_preloads() {
    let plan = plan_request(&index(), "/settings", "GET", &AcceptHeader::Absent);
    assert!(plan.should_fallback);
    assert_eq!(plan.preloads.unwrap().split_keys, strings(&["global_badge_111"]));
}

#[test]
fn found_files_and_failures_are_never_replaced() {
    assert_eq!(choose_response(StaticOutcome::Found, true, false), ServeAction::StaticResponse);
    assert_eq!(choose_response(StaticOutcome::Found, false, false), ServeAction::StaticResponse);
    assert_eq!(choose_response(StaticOutcome::Failed, true, true), ServeAction::ErrorResponse);
    assert_eq!(choose_response(StaticOutcome::Failed, false, false), ServeAction::ErrorResponse);
}

#[test]
fn builder_records_settings() {
    let builder = SpaFallbackBuilder::new(PathBuf::from("dist"), registry());
    assert_eq!(builder.dist_dir(), &PathBuf::from("dist"));
    assert_eq!(builder.configured_asset_base(), "/");
    assert_eq!(builder.precompressed(), PrecompressedAssets::default());
    assert_eq!(builder.registry(), &registry());

    let builder = builder.asset_base("/static").precompressed_gzip().precompressed_zstd();
    assert_eq!(builder.configured_asset_base(), "/static");
    assert_eq!(
        builder.precompressed(),
        PrecompressedAssets { gzip: true, br: false, deflate: false, zstd: true }
    );
    let builder = builder.precompressed_br().precompressed_deflate();
    assert_eq!(
        builder.precompressed(),
        PrecompressedAssets { gzip: true, br: true, deflate: true, zstd: true }
    );
    assert_eq!(builder.dist_dir(), &PathBuf::from("dist"));
}

#[test]
fn html_requests_for_the_index_page_get_it_rendered_with_global_preloads() {
    for path in ["/", "/index.html"] {
        let plan = plan_request(&index(), path, "GET", &html_accept());
        assert!(plan.serves_index_page);
        assert_eq!(
            choose_response(StaticOutcome::Found, plan.should_fallback, plan.serves_index_page),
            ServeAction::RenderIndex
        );
        match respond(&index(), &template(), "/", path, "GET", &html_accept(), StaticOutcome::Found) {
            Served::Page(html) => {
                assert!(html.contains("<link rel=\"preload\" href=\"/split-global-badge.wasm\""));
                assert_eq!(html.matches("/__wasm_split-hash.js").count(), 1);
            }
            other => panic!("unexpected response {other:?}"),
        }
    }
}

#[test]
fn other_found_files_and_non_html_index_requests_are_sent_as_stored() {
    assert_eq!(
        respond(&index(), &template(), "/", "/app.js", "GET", &html_accept(), StaticOutcome::Found),
        Served::Static
    );
    let json = AcceptHeader::Text("application/json".to_string());
    assert_eq!(respond(&index(), &template(), "/", "/", "GET", &json, StaticOutcome::Found), Served::Static);
    assert_eq!(respond(&index(), &template(), "/", "/", "POST", &html_accept(), StaticOutcome::Found), Served::Static);
    assert_eq!(
        respond(&index(), &template(), "/", "/users/alice", "GET", &html_accept(), StaticOutcome::Failed),
        Served::Error
    );
    assert!(path_names_index_page("/"));
    assert!(path_names_index_page("/index.html?x=1"));
    assert!(!path_names_index_page("/about"));
    assert!(!path_names_index_page("/docs/index.html"));
}

#[test]
fn fallback_pages_carry_the_resolved_preloads() {
    match respond(&index(), &template(), "/static", "/reports/7", "GET", &AcceptHeader::Absent, StaticOutcome::OtherStatus) {
        Served::Page(html) => {
            assert!(html.contains("href=\"/static/split-reports.wasm\""));
            assert!(html.contains("href=\"/static/split-global-badge.wasm\""));
        }
        other => panic!("unexpected response {other:?}"),
    }
}
