use leptos_csr_preload::html::{render_html_with_preloads, HtmlResponseBackend};
use leptos_csr_preload::manifest::{choose_manifest_file, ManifestFileChoice};
use leptos_csr_preload::{
    asset_href, IndexHtmlTemplate, PreloadError, PreloadIndex, PreloadRegistration,
    PreloadRegistry, RegisteredPreload, ResolvedPreloads, RoutePattern, TrunkWasmSplitManifest,
};

fn strings(items: &[&str]) -> Vec<String> {
    items.iter().map(|item| item.to_string()).collect()
}

fn manifest() -> TrunkWasmSplitManifest {
    TrunkWasmSplitManifest::from_entries(
        "__wasm_split-hash.js".to_string(),
        vec![
            (
                "global_badge_999".to_string(),
                vec!["split-global-badge.wasm".to_string()],
            ),
            (
                "about_route_123".to_string(),
                vec!["split-about.wasm".to_string()],
            ),
            (
                "shared_banner_777".to_string(),
                vec!["split-shared-banner.wasm".to_string()],
            ),
            (
                "inventory_route_111".to_string(),
                vec![
                    "chunk-a.wasm".to_string(),
                    "split-inventory.wasm".to_string(),
                ],
            ),
            (
                "load_inventory_seed_222".to_string(),
                vec!["chunk-b.wasm".to_string(), "split-seed.wasm".to_string()],
            ),
            (
                "user_route_333".to_string(),
                vec!["chunk-user.wasm".to_string(), "split-user.wasm".to_string()],
            ),
            (
                "load_user_metrics_444".to_string(),
                vec!["split-metrics.wasm".to_string()],
            ),
            (
                "reports_route_555".to_string(),
                vec!["split-reports.wasm".to_string()],
            ),
            (
                "files_route_666".to_string(),
                vec!["split-files.wasm".to_string()],
            ),
        ],
    )
}

fn registration(source_name: &str, preload_path: Option<&str>, split_prefix: &str) -> PreloadRegistration {
    PreloadRegistration {
        source_name: source_name.to_string(),
        preload_path: preload_path.map(|path| path.to_string()),
        split_prefix: split_prefix.to_string(),
    }
}

fn registry() -> PreloadRegistry {
    PreloadRegistry::new(vec![
        registration("global_badge", None, "global_badge_"),
        registration("about_route", Some("/about"), "about_route_"),
        registration("about_route", Some("/info"), "about_route_"),
        registration("inventory_route", Some("/inventory"), "inventory_route_"),
        registration("load_inventory_seed", Some("/inventory"), "load_inventory_seed_"),
        registration("user_route", Some("/users/:id"), "user_route_"),
        registration("load_user_metrics", Some("/users/:id"), "load_user_metrics_"),
        registration("reports_route", Some("/reports/:id?"), "reports_route_"),
        registration("files_route", Some("/files/*rest"), "files_route_"),
        registration("shared_banner", Some("/reports/:id?"), "shared_banner_"),
        registration("shared_banner", Some("/files/*rest"), "shared_banner_"),
    ])
}

#[test]
fn route_pattern_matches_static_parameterized_optional_splat_and_query_paths() {
    let about = RoutePattern::parse("/about").unwrap();
    let users = RoutePattern::parse("/users/:id").unwrap();
    let reports = RoutePattern::parse("/reports/:id?").unwrap();
    let files = RoutePattern::parse("/files/*rest").unwrap();

    assert!(about.matches("/about"));
    assert!(users.matches("/users/alice"));
    assert!(users.matches("/users/alice?tab=overview"));
    assert!(reports.matches("/reports"));
    assert!(reports.matches("/reports/42"));
    assert!(files.matches("/files/a/b/c"));
    assert!(!users.matches("/users"));
}

#[test]
fn route_pattern_rejects_invalid_patterns() {
    let err = RoutePattern::parse("/users/:").unwrap_err();
    assert!(matches!(err, PreloadError::InvalidRoutePattern { .. }));

    let err = RoutePattern::parse("/files/*").unwrap_err();
    assert!(matches!(err, PreloadError::InvalidRoutePattern { .. }));
}

#[test]
fn preload_index_unions_matching_route_and_function_preloads() {
    let index = PreloadIndex::from_registry(manifest(), &registry()).unwrap();

    let resolved = index.resolve("/inventory").unwrap();

    assert_eq!(
        resolved.split_keys,
        vec![
            "global_badge_999".to_string(),
            "inventory_route_111".to_string(),
            "load_inventory_seed_222".to_string(),
        ]
    );
    assert!(resolved
        .wasm_chunks
        .contains(&"split-global-badge.wasm".to_string()));
    assert!(resolved
        .wasm_chunks
        .contains(&"split-inventory.wasm".to_string()));
    assert!(resolved
        .wasm_chunks
        .contains(&"split-seed.wasm".to_string()));
}

#[test]
fn preload_index_matches_parameterized_query_optional_and_splat_paths() {
    let index = PreloadIndex::from_registry(manifest(), &registry()).unwrap();

    let user = index.resolve("/users/alice?tab=profile").unwrap();
    assert!(user.split_keys.contains(&"global_badge_999".to_string()));
    assert!(user.split_keys.contains(&"user_route_333".to_string()));
    assert!(user
        .split_keys
        .contains(&"load_user_metrics_444".to_string()));

    let reports = index.resolve("/reports").unwrap();
    assert_eq!(
        reports.split_keys,
        vec![
            "global_badge_999".to_string(),
            "reports_route_555".to_string(),
            "shared_banner_777".to_string()
        ]
    );

    let files = index.resolve("/files/images/icons/logo.svg").unwrap();
    assert_eq!(
        files.split_keys,
        vec![
            "files_route_666".to_string(),
            "global_badge_999".to_string(),
            "shared_banner_777".to_string()
        ]
    );
}

#[test]
fn preload_index_supports_multiple_preload_paths_for_the_same_split_point() {
    let index = PreloadIndex::from_registry(manifest(), &registry()).unwrap();

    let about = index.resolve("/about").unwrap();
    let info = index.resolve("/info").unwrap();

    assert_eq!(
        about.split_keys,
        vec![
            "about_route_123".to_string(),
            "global_badge_999".to_string()
        ]
    );
    assert_eq!(
        info.split_keys,
        vec![
            "about_route_123".to_string(),
            "global_badge_999".to_string()
        ]
    );
}

#[test]
fn preload_index_includes_global_preloads_on_all_routes() {
    let index = PreloadIndex::from_registry(manifest(), &registry()).unwrap();

    let about = index.resolve("/about").unwrap();
    let unknown = index.resolve("/totally-unknown-route").unwrap();

    assert!(about.split_keys.contains(&"global_badge_999".to_string()));
    assert_eq!(unknown.split_keys, vec!["global_badge_999".to_string()]);
}

#[test]
fn preload_index_reports_missing_prefixes() {
    let missing = PreloadRegistry::new(vec![PreloadRegistration {
        source_name: "missing_route".to_string(),
        preload_path: Some("/missing".to_string()),
        split_prefix: "missing_route_".to_string(),
    }]);

    let err = PreloadIndex::from_registry(manifest(), &missing).unwrap_err();
    assert!(matches!(err, PreloadError::MissingManifestKey { .. }));
}

#[test]
fn template_injects_new_preloads_without_duplicate_hrefs() {
    let template = IndexHtmlTemplate::parse(
        r#"<html><head><link rel="modulepreload" href="/__wasm_split-hash.js"></head><body></body></html>"#,
    );
    let preloads = ResolvedPreloads {
        loader: "__wasm_split-hash.js".to_string(),
        split_keys: vec!["about_route_123".to_string()],
        wasm_chunks: vec!["split-about.wasm".to_string()],
    };

    let html = template.render("/", Some(&preloads));

    assert!(html.contains("/split-about.wasm"));
    assert_eq!(html.matches("/__wasm_split-hash.js").count(), 1);
    assert_eq!(asset_href("/", "foo.wasm"), "/foo.wasm");
}

// ---------------------------------------------------------------------------
// Route patterns

#[test]
fn route_pattern_matching_ignores_the_query_string() {
    let users = RoutePattern::parse("/users/:id").unwrap();
    assert_eq!(users.matches("/users/alice?tab=a/b/c"), users.matches("/users/alice"));
    assert!(users.matches("/users/alice?"));
    assert!(!users.matches("/users?id=alice"));
}

#[test]
fn route_pattern_specificity_counts_segment_kinds() {
    let max = usize::MAX;
    assert_eq!(RoutePattern::parse("/users/:id").unwrap().specificity(), (1, 1, max, max));
    assert_eq!(RoutePattern::parse("/reports/:id?").unwrap().specificity(), (1, 0, max - 1, max));
    assert_eq!(RoutePattern::parse("/files/*rest").unwrap().specificity(), (1, 0, max, max - 1));
    assert_eq!(RoutePattern::parse("/a/b/:c/:d?/*e").unwrap().specificity(), (2, 1, max - 1, max - 1));
    assert_eq!(RoutePattern::parse("/").unwrap().specificity(), (0, 0, max, max));
}

#[test]
fn route_pattern_errors_name_the_trimmed_pattern_and_reason() {
    match RoutePattern::parse("  /reports/:?  ").unwrap_err() {
        PreloadError::InvalidRoutePattern { pattern, reason } => {
            assert_eq!(pattern, "/reports/:?");
            assert_eq!(reason, "optional parameters must have a name");
        }
        other => panic!("unexpected error {other:?}"),
    }
    match RoutePattern::parse("/users/:").unwrap_err() {
        PreloadError::InvalidRoutePattern { pattern, reason } => {
            assert_eq!(pattern, "/users/:");
            assert_eq!(reason, "parameters must have a name");
        }
        other => panic!("unexpected error {other:?}"),
    }
    match RoutePattern::parse("/files/*").unwrap_err() {
        PreloadError::InvalidRoutePattern { pattern, reason } => {
            assert_eq!(pattern, "/files/*");
            assert_eq!(reason, "splats must have a name");
        }
        other => panic!("unexpected error {other:?}"),
    }
}

#[test]
fn route_pattern_root_and_empty_segments() {
    assert_eq!(RoutePattern::parse("").unwrap(), RoutePattern::root());
    assert_eq!(RoutePattern::parse("  /  ").unwrap(), RoutePattern::root());
    assert_eq!(RoutePattern::parse("//about//").unwrap(), RoutePattern::parse("/about").unwrap());
    let root = RoutePattern::root();
    assert!(root.matches("/"));
    assert!(root.matches(""));
    assert!(root.matches("/?tab=1"));
    assert!(!root.matches("/about"));
}

#[test]
fn route_pattern_splat_and_optional_edges() {
    let files = RoutePattern::parse("/files/*rest").unwrap();
    assert!(files.matches("/files"));
    assert!(files.matches("/files/"));
    assert!(!files.matches("/other/a"));
    let middle = RoutePattern::parse("/docs/*path/edit").unwrap();
    assert!(middle.matches("/docs/a/b/edit"));
    assert!(middle.matches("/docs/edit"));
    assert!(!middle.matches("/docs/a/b"));
    let reports = RoutePattern::parse("/reports/:id?").unwrap();
    assert!(!reports.matches("/reports/1/2"));
    let statics = RoutePattern::parse("/about").unwrap();
    assert!(statics.matches("//about//"));
    assert!(!statics.matches("/About"));
}

// ---------------------------------------------------------------------------
// Preload index

fn small_manifest() -> TrunkWasmSplitManifest {
    TrunkWasmSplitManifest::from_entries(
        "loader.js".to_string(),
        vec![
            ("me_route_1".to_string(), strings(&["chunk-a.wasm", "split-me.wasm"])),
            ("user_route_2".to_string(), strings(&["chunk-a.wasm", "split-user.wasm"])),
            ("about_1".to_string(), strings(&["about-1.wasm"])),
            ("about_2".to_string(), strings(&["about-2.wasm"])),
        ],
    )
}

#[test]
fn preload_index_prefers_the_most_specific_matching_route() {
    let registry = PreloadRegistry::new(vec![
        registration("user_route", Some("/users/:id"), "user_route_"),
        registration("me_route", Some("/users/me"), "me_route_"),
    ]);
    let index = PreloadIndex::from_registry(small_manifest(), &registry).unwrap();

    let me = index.resolve("/users/me").unwrap();
    assert_eq!(me.split_keys, strings(&["me_route_1"]));
    assert_eq!(me.wasm_chunks, strings(&["chunk-a.wasm", "split-me.wasm"]));
    assert_eq!(me.loader, "loader.js");

    let bob = index.resolve("/users/bob").unwrap();
    assert_eq!(bob.split_keys, strings(&["user_route_2"]));

    assert_eq!(index.entries().len(), 2);
    assert_eq!(index.entries()[0].source_name, "me_route");
    assert_eq!(index.entries()[0].specificity, (2, 0, usize::MAX, usize::MAX));
    assert_eq!(index.entries()[1].source_name, "user_route");
    assert!(index.global_entries().is_empty());
    assert_eq!(index.loader(), "loader.js");
}

#[test]
fn preload_index_merges_wasm_chunks_sorted_without_duplicates() {
    let registry = PreloadRegistry::new(vec![
        registration("user_route", Some("/team"), "user_route_"),
        registration("me_route", Some("/team"), "me_route_"),
    ]);
    let index = PreloadIndex::from_registry(small_manifest(), &registry).unwrap();
    let team = index.resolve("/team").unwrap();
    assert_eq!(team.split_keys, strings(&["me_route_1", "user_route_2"]));
    assert_eq!(team.wasm_chunks, strings(&["chunk-a.wasm", "split-me.wasm", "split-user.wasm"]));
}

#[test]
fn preload_index_without_globals_resolves_unmatched_paths_to_none() {
    let registry = PreloadRegistry::new(vec![registration("user_route", Some("/users/:id"), "user_route_")]);
    let index = PreloadIndex::from_registry(small_manifest(), &registry).unwrap();
    assert!(index.resolve("/elsewhere").is_none());
    assert!(!index.has_path_match("/elsewhere"));
    assert!(index.has_path_match("/users/bob?tab=1"));
}

#[test]
fn preload_index_has_path_match_ignores_global_entries() {
    let registry = PreloadRegistry::new(vec![
        registration("zeta", None, "me_route_"),
        registration("alpha", None, "user_route_"),
    ]);
    let index = PreloadIndex::from_registry(small_manifest(), &registry).unwrap();
    assert!(!index.has_path_match("/"));
    assert!(index.entries().is_empty());
    let globals: Vec<String> = index.global_entries().iter().map(|entry| entry.source_name.clone()).collect();
    assert_eq!(globals, strings(&["alpha", "zeta"]));
    let resolved = index.resolve("/anything").unwrap();
    assert_eq!(resolved.split_keys, strings(&["me_route_1", "user_route_2"]));
}

#[test]
fn preload_index_reports_ambiguous_prefixes() {
    let registry = PreloadRegistry::new(vec![registration("about", Some("/about"), "about_")]);
    match PreloadIndex::from_registry(small_manifest(), &registry).unwrap_err() {
        PreloadError::AmbiguousManifestKey { prefix, source_name, matches } => {
            assert_eq!(prefix, "about_");
            assert_eq!(source_name, "about");
            assert_eq!(matches, strings(&["about_1", "about_2"]));
        }
        other => panic!("unexpected error {other:?}"),
    }
}

#[test]
fn preload_index_reports_missing_prefix_details() {
    let registry = PreloadRegistry::new(vec![registration("ghost", Some("/ghost"), "ghost_")]);
    match PreloadIndex::from_registry(small_manifest(), &registry).unwrap_err() {
        PreloadError::MissingManifestKey { prefix, source_name } => {
            assert_eq!(prefix, "ghost_");
            assert_eq!(source_name, "ghost");
        }
        other => panic!("unexpected error {other:?}"),
    }
}

#[test]
fn preload_index_reports_invalid_registered_patterns() {
    let registry = PreloadRegistry::new(vec![registration("me", Some("/users/:"), "me_route_")]);
    let err = PreloadIndex::from_registry(small_manifest(), &registry).unwrap_err();
    assert!(matches!(err, PreloadError::InvalidRoutePattern { .. }));
}

#[test]
fn preload_index_resolution_ignores_the_query_string() {
    let index = PreloadIndex::from_registry(manifest(), &registry()).unwrap();
    assert_eq!(index.resolve("/reports/7?x=/about"), index.resolve("/reports/7"));
}

#[test]
fn registry_iterates_in_registration_order() {
    let registry = registry();
    let names: Vec<String> = registry.iter().map(|entry| entry.source_name.clone()).collect();
    assert_eq!(names.len(), 11);
    assert_eq!(names[0], "global_badge");
    assert_eq!(names[10], "shared_banner");
}

#[test]
fn submitted_preloads_become_registrations_in_order() {
    let submitted = vec![
        RegisteredPreload { source_name: "global_badge", preload_path: None, split_prefix: "global_badge_" },
        RegisteredPreload { source_name: "user_route", preload_path: Some("/users/:id"), split_prefix: "user_route_" },
    ];
    assert_eq!(submitted[1].to_registration(), registration("user_route", Some("/users/:id"), "user_route_"));
    let registry = PreloadRegistry::from_submitted(&submitted);
    assert_eq!(
        registry,
        PreloadRegistry::new(vec![
            registration("global_badge", None, "global_badge_"),
            registration("user_route", Some("/users/:id"), "user_route_"),
        ])
    );
}

// ---------------------------------------------------------------------------
// Manifest

#[test]
fn manifest_keeps_keys_sorted_and_later_entries_win() {
    let manifest = TrunkWasmSplitManifest::from_entries(
        "l.js".to_string(),
        vec![
            ("b".to_string(), strings(&["b1.wasm"])),
            ("a".to_string(), strings(&["a.wasm"])),
            ("b".to_string(), strings(&["b2.wasm"])),
        ],
    );
    assert_eq!(manifest.loader(), "l.js");
    assert_eq!(
        manifest.prefetch_map(),
        &vec![
            ("a".to_string(), strings(&["a.wasm"])),
            ("b".to_string(), strings(&["b2.wasm"])),
        ]
    );
}

#[test]
fn manifest_insert_places_new_keys_in_order() {
    let mut manifest = TrunkWasmSplitManifest::new("l.js".to_string());
    manifest.insert("m".to_string(), strings(&["m.wasm"]));
    manifest.insert("c".to_string(), strings(&["c.wasm"]));
    manifest.insert("x".to_string(), strings(&["x.wasm"]));
    manifest.insert("c".to_string(), strings(&["c2.wasm"]));
    let keys: Vec<String> = manifest.prefetch_map().iter().map(|(key, _)| key.clone()).collect();
    assert_eq!(keys, strings(&["c", "m", "x"]));
    assert_eq!(manifest.prefetch_map()[0].1, strings(&["c2.wasm"]));
}

#[test]
fn manifest_file_choice_counts_split_manifests() {
    let found = choose_manifest_file(&strings(&["index.html", "__wasm_split_manifest-abc.json", "app.wasm"]));
    assert_eq!(found, ManifestFileChoice::Found(1));
    let missing = choose_manifest_file(&strings(&["index.html", "__wasm_split_manifest-abc.js"]));
    assert_eq!(missing, ManifestFileChoice::Missing);
    let multiple = choose_manifest_file(&strings(&["__wasm_split_manifest-a.json", "__wasm_split_manifest-b.json"]));
    assert_eq!(multiple, ManifestFileChoice::Multiple);
    assert_eq!(choose_manifest_file(&Vec::new()), ManifestFileChoice::Missing);
}

// ---------------------------------------------------------------------------
// HTML

fn about_preloads() -> ResolvedPreloads {
    ResolvedPreloads {
        loader: "__wasm_split-hash.js".to_string(),
        split_keys: vec!["about_route_123".to_string()],
        wasm_chunks: strings(&["a.wasm", "b.wasm"]),
    }
}

#[test]
fn asset_href_joins_base_and_file() {
    assert_eq!(asset_href("", "a.wasm"), "/a.wasm");
    assert_eq!(asset_href("  /  ", "a.wasm"), "/a.wasm");
    assert_eq!(asset_href("/static/", "a.wasm"), "/static/a.wasm");
    assert_eq!(asset_href("/static//", "a.wasm"), "/static/a.wasm");
    assert_eq!(asset_href(" https://cdn.example/app ", "a.wasm"), "https://cdn.example/app/a.wasm");
}

#[test]
fn preload_tags_are_exact_and_skip_present_urls() {
    let preloads = about_preloads();
    let tags = preloads.preload_tags("/static/", &Vec::new());
    assert_eq!(
        tags,
        "<link rel=\"modulepreload\" href=\"/static/__wasm_split-hash.js\">\
<link rel=\"preload\" href=\"/static/a.wasm\" as=\"fetch\" type=\"application/wasm\" crossorigin>\
<link rel=\"preload\" href=\"/static/b.wasm\" as=\"fetch\" type=\"application/wasm\" crossorigin>"
    );
    let present = strings(&["/static/__wasm_split-hash.js", "/static/a.wasm"]);
    assert_eq!(
        preloads.preload_tags("/static/", &present),
        "<link rel=\"preload\" href=\"/static/b.wasm\" as=\"fetch\" type=\"application/wasm\" crossorigin>"
    );
    let no_loader = ResolvedPreloads { loader: String::new(), split_keys: Vec::new(), wasm_chunks: Vec::new() };
    assert_eq!(no_loader.preload_tags("/", &Vec::new()), "");
}

#[test]
fn template_render_without_preloads_returns_the_page() {
    let page = "<html><HEAD><title>x</title></HEAD><body><a href='/y'>y</a></body></html>";
    let template = IndexHtmlTemplate::parse(page);
    assert_eq!(template.render("/", None), page);
    let no_head = "<p>plain</p>";
    assert_eq!(IndexHtmlTemplate::parse(no_head).render("/cdn", None), no_head);
}

#[test]
fn template_places_tags_before_the_first_head_close_in_any_case() {
    let template = IndexHtmlTemplate::parse("<html><head></HeAd><body></head></body></html>");
    let preloads = ResolvedPreloads { loader: "l.js".to_string(), split_keys: Vec::new(), wasm_chunks: Vec::new() };
    assert_eq!(
        template.render("/", Some(&preloads)),
        "<html><head><link rel=\"modulepreload\" href=\"/l.js\"></HeAd><body></head></body></html>"
    );
    let headless = IndexHtmlTemplate::parse("<p>x</p>");
    assert_eq!(
        headless.render("/", Some(&preloads)),
        "<p>x</p><link rel=\"modulepreload\" href=\"/l.js\">"
    );
}

#[test]
fn template_render_with_present_preloads_adds_nothing() {
    let page = "<head><link href=\"/__wasm_split-hash.js\"><link href='/a.wasm'><link href=\"/b.wasm\"></head>";
    let template = IndexHtmlTemplate::parse(page);
    assert_eq!(template.render("/", Some(&about_preloads())), template.render("/", None));
    assert_eq!(template.render("/", Some(&about_preloads())), page);
}

#[test]
fn template_href_scan_reads_only_quoted_values() {
    let template = IndexHtmlTemplate::parse("<head><link href=\"/a.wasm><link href=\"/b.wasm\"></head>");
    let preloads = ResolvedPreloads { loader: String::new(), split_keys: Vec::new(), wasm_chunks: strings(&["b.wasm"]) };
    let html = template.render("/", Some(&preloads));
    assert_eq!(html.matches("/b.wasm").count(), 2);
    let unquoted = IndexHtmlTemplate::parse("<head><link href=/b.wasm></head>");
    assert_eq!(unquoted.render("/", Some(&preloads)).matches("/b.wasm").count(), 2);
}

struct Echo;

impl HtmlResponseBackend for Echo {
    type Response = (u16, String);

    fn respond_html(&self, html: String) -> Self::Response {
        (200, html)
    }
}

#[test]
fn render_html_with_preloads_hands_the_page_to_the_backend() {
    let template = IndexHtmlTemplate::parse("<head></head>");
    let response = render_html_with_preloads(&Echo, &template, "/", Some(&about_preloads()));
    assert_eq!(response.0, 200);
    assert_eq!(response.1, template.render("/", Some(&about_preloads())));
    assert!(response.1.starts_with("<head><link rel=\"modulepreload\" href=\"/__wasm_split-hash.js\">"));
}

#[test]
fn rendering_a_rendered_page_again_adds_nothing() {
    let page = "<html><head><title>t</title><link href='/style.css'></head><body></body></html>";
    let preloads = about_preloads();
    let once = IndexHtmlTemplate::parse(page).render("/static/", Some(&preloads));
    assert_ne!(once, page);
    let twice = IndexHtmlTemplate::parse(&once).render("/static/", Some(&preloads));
    assert_eq!(twice, once);
}

#[test]
fn manifest_clone_keeps_its_entries() {
    let manifest = manifest();
    let copy = manifest.clone();
    assert_eq!(copy, manifest);
    assert_eq!(copy.loader(), "__wasm_split-hash.js");
    assert_eq!(copy.prefetch_map().len(), 9);
}
