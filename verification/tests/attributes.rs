use leptos_csr_preload::attributes::{
    derive_route_name, lazy_arg_kind, lazy_route_arg_kind, plan_lazy, plan_lazy_route,
    plan_registrations, ArgKind, LazyArgs, MacroError, RouteType, ViewShape,
};
use leptos_csr_preload::PreloadRegistration;

fn strings(items: &[&str]) -> Vec<String> {
    items.iter().map(|item| item.to_string()).collect()
}

fn registration(source_name: &str, preload_path: Option<&str>, split_prefix: &str) -> PreloadRegistration {
    PreloadRegistration {
        source_name: source_name.to_string(),
        preload_path: preload_path.map(|path| path.to_string()),
        split_prefix: split_prefix.to_string(),
    }
}

fn good_view() -> ViewShape {
    ViewShape::Present { is_async: false, has_typed_first_argument: true }
}

#[test]
fn argument_keys_are_recognised_per_attribute() {
    assert_eq!(lazy_arg_kind("name"), Some(ArgKind::Name));
    assert_eq!(lazy_arg_kind("preload_path"), Some(ArgKind::PreloadPath));
    assert_eq!(lazy_arg_kind("preload_paths"), Some(ArgKind::PreloadPaths));
    assert_eq!(lazy_arg_kind("preload"), Some(ArgKind::Preload));
    assert_eq!(lazy_arg_kind("path"), None);
    assert_eq!(lazy_route_arg_kind("name"), Some(ArgKind::Name));
    assert_eq!(lazy_route_arg_kind("preload_paths"), Some(ArgKind::PreloadPaths));
    assert_eq!(lazy_route_arg_kind("preload"), None);
}

#[test]
fn lazy_arguments_accumulate_in_order() {
    let mut args = LazyArgs::new();
    args.add_path("/a".to_string());
    args.add_paths(strings(&["/b", "/c"]));
    args.set_name("first".to_string());
    args.set_name("second".to_string());
    assert_eq!(args.preload_paths, strings(&["/a", "/b", "/c"]));
    assert_eq!(args.name, Some("second".to_string()));
    assert!(!args.preload);
    args.set_preload();
    assert!(args.preload);
}

#[test]
fn global_lazy_functions_register_one_global_entry() {
    let mut args = LazyArgs::new();
    args.set_name("global_badge".to_string());
    args.set_preload();
    let plan = plan_lazy(&args, "load_global_badge").unwrap();
    assert_eq!(plan.lazy_name, Some("global_badge".to_string()));
    assert_eq!(plan.source_name, "global_badge");
    assert_eq!(plan.split_prefix, "global_badge_");
    assert_eq!(plan.registrations, vec![registration("global_badge", None, "global_badge_")]);
}

#[test]
fn lazy_functions_default_to_their_own_name() {
    let mut args = LazyArgs::new();
    args.add_path("/inventory".to_string());
    let plan = plan_lazy(&args, "load_inventory_seed").unwrap();
    assert_eq!(plan.lazy_name, None);
    assert_eq!(plan.source_name, "load_inventory_seed");
    assert_eq!(
        plan.registrations,
        vec![registration("load_inventory_seed", Some("/inventory"), "load_inventory_seed_")]
    );
}

#[test]
fn lazy_functions_without_preload_register_nothing() {
    let plan = plan_lazy(&LazyArgs::new(), "load_later").unwrap();
    assert!(plan.registrations.is_empty());
    assert_eq!(plan.split_prefix, "load_later_");
}

#[test]
fn preload_with_paths_is_rejected() {
    let mut args = LazyArgs::new();
    args.set_preload();
    args.add_paths(strings(&["/inventory", "/reports/:id?"]));
    let err = plan_lazy(&args, "load_shared_banner").unwrap_err();
    assert_eq!(err, MacroError::PreloadWithPaths);
    assert_eq!(err.message(), "`preload` is mutually exclusive with `preload_path` and `preload_paths`");
}

#[test]
fn registrations_list_global_first_then_paths() {
    let regs = plan_registrations(&strings(&["/x", "/y"]), true, "s", "s_");
    assert_eq!(
        regs,
        vec![
            registration("s", None, "s_"),
            registration("s", Some("/x"), "s_"),
            registration("s", Some("/y"), "s_"),
        ]
    );
}

#[test]
fn route_names_come_from_the_self_type_in_snake_case() {
    assert_eq!(
        derive_route_name(&RouteType::Path(Some("InventoryRoute".to_string()))),
        Ok("inventory_route".to_string())
    );
    assert_eq!(derive_route_name(&RouteType::Path(Some("Reports".to_string()))), Ok("reports".to_string()));
    assert_eq!(derive_route_name(&RouteType::NotPath), Err(MacroError::RouteTypeNotPath));
    assert_eq!(derive_route_name(&RouteType::Path(None)), Err(MacroError::RouteTypeWithoutSegment));
}

#[test]
fn lazy_routes_plan_helpers_and_registrations() {
    let plan = plan_lazy_route(
        None,
        &RouteType::Path(Some("InventoryRoute".to_string())),
        false,
        good_view(),
        &strings(&["/inventory", "/stockroom"]),
    )
    .unwrap();
    assert_eq!(plan.route_name, "inventory_route");
    assert_eq!(plan.helper_ident, "__leptos_csr_preload_inventory_route_view");
    assert_eq!(plan.preload_ident, "__preload___leptos_csr_preload_inventory_route_view");
    assert_eq!(
        plan.registrations,
        vec![
            registration("inventory_route", Some("/inventory"), "inventory_route_"),
            registration("inventory_route", Some("/stockroom"), "inventory_route_"),
        ]
    );
}

#[test]
fn lazy_routes_prefer_an_explicit_name() {
    let plan = plan_lazy_route(Some("about".to_string()), &RouteType::NotPath, false, good_view(), &Vec::new()).unwrap();
    assert_eq!(plan.route_name, "about");
    assert_eq!(plan.helper_ident, "__leptos_csr_preload_about_view");
    assert!(plan.registrations.is_empty());
    assert_eq!(
        plan_lazy_route(Some("about".to_string()), &RouteType::NotPath, false, ViewShape::Missing, &Vec::new()),
        Err(MacroError::MissingView)
    );
}

#[test]
fn lazy_route_shapes_are_checked_in_order() {
    let ty = RouteType::Path(Some("AboutRoute".to_string()));
    let paths = Vec::new();
    assert_eq!(plan_lazy_route(None, &ty, true, ViewShape::Missing, &paths), Err(MacroError::ManualPreload));
    assert_eq!(plan_lazy_route(None, &ty, false, ViewShape::Missing, &paths), Err(MacroError::MissingView));
    assert_eq!(
        plan_lazy_route(None, &ty, false, ViewShape::Present { is_async: true, has_typed_first_argument: false }, &paths),
        Err(MacroError::AsyncView)
    );
    assert_eq!(
        plan_lazy_route(None, &ty, false, ViewShape::Present { is_async: false, has_typed_first_argument: false }, &paths),
        Err(MacroError::ViewWithoutArgument)
    );
    assert_eq!(plan_lazy_route(None, &RouteType::NotPath, true, ViewShape::Missing, &paths), Err(MacroError::RouteTypeNotPath));
    assert_eq!(
        plan_lazy_route(None, &RouteType::Path(None), false, good_view(), &paths),
        Err(MacroError::RouteTypeWithoutSegment)
    );
}

#[test]
fn macro_errors_carry_their_messages() {
    assert_eq!(
        MacroError::UnsupportedLazyArgument.message(),
        "supported arguments: `name = ...`, `preload`, `preload_path = \"...\"`, `preload_paths = [\"...\", ...]`"
    );
    assert_eq!(
        MacroError::UnsupportedLazyRouteArgument.message(),
        "supported arguments: `name = ...`, `preload_path = \"...\"`, `preload_paths = [\"...\", ...]`"
    );
    assert_eq!(MacroError::RouteTypeNotPath.message(), "only path types are supported for #[lazy_route]");
    assert_eq!(MacroError::RouteTypeWithoutSegment.message(), "route type must have a final path segment");
    assert_eq!(
        MacroError::ManualPreload.message(),
        "`preload` should not be implemented manually on #[lazy_route] impls"
    );
    assert_eq!(MacroError::MissingView.message(), "missing `view` method on LazyRoute impl");
    assert_eq!(MacroError::AsyncView.message(), "`view` method should not be async");
    assert_eq!(MacroError::ViewWithoutArgument.message(), "`view` must take a `this: Self` argument");
}

#[test]
fn raw_route_names_lose_their_prefix_in_helper_names_only() {
    let plan = plan_lazy_route(Some("r#type".to_string()), &RouteType::NotPath, false, good_view(), &strings(&["/t"])).unwrap();
    assert_eq!(plan.route_name, "r#type");
    assert_eq!(plan.helper_ident, "__leptos_csr_preload_type_view");
    assert_eq!(plan.preload_ident, "__preload___leptos_csr_preload_type_view");
    assert_eq!(plan.registrations, vec![registration("r#type", Some("/t"), "r#type_")]);
}
