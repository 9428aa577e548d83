//! The decisions of the `#[lazy]` and `#[lazy_route]` attributes: which arguments they take,
//! which registrations they emit, and which item shapes they reject.

use crate::registry::{registrations_view, PreloadRegistration, RegistrationView};
use crate::text::{chars_of, copy_string, copy_strings, push_all, same_chars, strings_view};
use convert_case::{Case, Casing};
use vstd::prelude::*;

verus! {

/// What an attribute argument key selects.
#[derive(Debug, Clone, Copy, PartialEq, Eq)]
pub enum ArgKind {
    /// `name = ident`
    Name,
    /// `preload_path = "..."`
    PreloadPath,
    /// `preload_paths = ["...", ...]`
    PreloadPaths,
    /// `preload` (no value)
    Preload,
}

/// The kind of a `#[lazy]` argument key; `None` for an unsupported key.
pub open spec fn lazy_kind_of(key: Seq<char>) -> Option<ArgKind> {
    if key == "name"@ {
        Some(ArgKind::Name)
    } else if key == "preload_path"@ {
        Some(ArgKind::PreloadPath)
    } else if key == "preload_paths"@ {
        Some(ArgKind::PreloadPaths)
    } else if key == "preload"@ {
        Some(ArgKind::Preload)
    } else {
        None
    }
}

/// The kind of a `#[lazy_route]` argument key; `None` for an unsupported key.
pub open spec fn lazy_route_kind_of(key: Seq<char>) -> Option<ArgKind> {
    if key == "name"@ {
        Some(ArgKind::Name)
    } else if key == "preload_path"@ {
        Some(ArgKind::PreloadPath)
    } else if key == "preload_paths"@ {
        Some(ArgKind::PreloadPaths)
    } else {
        None
    }
}

/// The kind of a `#[lazy]` argument key.
pub fn lazy_arg_kind(key: &str) -> (r: Option<ArgKind>)
    ensures
        r == lazy_kind_of(key@),
{
    if same_chars(key, "name") {
        Some(ArgKind::Name)
    } else if same_chars(key, "preload_path") {
        Some(ArgKind::PreloadPath)
    } else if same_chars(key, "preload_paths") {
        Some(ArgKind::PreloadPaths)
    } else if same_chars(key, "preload") {
        Some(ArgKind::Preload)
    } else {
        None
    }
}

/// The kind of a `#[lazy_route]` argument key.
pub fn lazy_route_arg_kind(key: &str) -> (r: Option<ArgKind>)
    ensures
        r == lazy_route_kind_of(key@),
{
    if same_chars(key, "name") {
        Some(ArgKind::Name)
    } else if same_chars(key, "preload_path") {
        Some(ArgKind::PreloadPath)
    } else if same_chars(key, "preload_paths") {
        Some(ArgKind::PreloadPaths)
    } else {
        None
    }
}

/// Why an attribute use is rejected.
#[derive(Debug, Clone, Copy, PartialEq, Eq)]
pub enum MacroError {
    /// An unsupported `#[lazy]` argument key.
    UnsupportedLazyArgument,
    /// An unsupported `#[lazy_route]` argument key.
    UnsupportedLazyRouteArgument,
    /// `preload` together with preload paths.
    PreloadWithPaths,
    /// The route type is not a path type.
    RouteTypeNotPath,
    /// The route type path has no final segment.
    RouteTypeWithoutSegment,
    /// The impl defines `preload` itself.
    ManualPreload,
    /// The impl has no `view` method.
    MissingView,
    /// The `view` method is `async`.
    AsyncView,
    /// The `view` method has no typed first argument.
    ViewWithoutArgument,
}

/// The message a rejected attribute use reports.
pub open spec fn error_message(e: MacroError) -> Seq<char> {
    match e {
        MacroError::UnsupportedLazyArgument => "supported arguments: `name = ...`, `preload`, `preload_path = \"...\"`, `preload_paths = [\"...\", ...]`"@,
        MacroError::UnsupportedLazyRouteArgument => "supported arguments: `name = ...`, `preload_path = \"...\"`, `preload_paths = [\"...\", ...]`"@,
        MacroError::PreloadWithPaths => "`preload` is mutually exclusive with `preload_path` and `preload_paths`"@,
        MacroError::RouteTypeNotPath => "only path types are supported for #[lazy_route]"@,
        MacroError::RouteTypeWithoutSegment => "route type must have a final path segment"@,
        MacroError::ManualPreload => "`preload` should not be implemented manually on #[lazy_route] impls"@,
        MacroError::MissingView => "missing `view` method on LazyRoute impl"@,
        MacroError::AsyncView => "`view` method should not be async"@,
        MacroError::ViewWithoutArgument => "`view` must take a `this: Self` argument"@,
    }
}

impl MacroError {
    /// The message this error reports.
    pub fn message(&self) -> (r: &'static str)
        ensures
            r@ == error_message(*self),
    {
        match self {
            MacroError::UnsupportedLazyArgument => "supported arguments: `name = ...`, `preload`, `preload_path = \"...\"`, `preload_paths = [\"...\", ...]`",
            MacroError::UnsupportedLazyRouteArgument => "supported arguments: `name = ...`, `preload_path = \"...\"`, `preload_paths = [\"...\", ...]`",
            MacroError::PreloadWithPaths => "`preload` is mutually exclusive with `preload_path` and `preload_paths`",
            MacroError::RouteTypeNotPath => "only path types are supported for #[lazy_route]",
            MacroError::RouteTypeWithoutSegment => "route type must have a final path segment",
            MacroError::ManualPreload => "`preload` should not be implemented manually on #[lazy_route] impls",
            MacroError::MissingView => "missing `view` method on LazyRoute impl",
            MacroError::AsyncView => "`view` method should not be async",
            MacroError::ViewWithoutArgument => "`view` must take a `this: Self` argument",
        }
    }
}

/// The arguments of `#[lazy]` or `#[lazy_route]`, as they accumulate.
#[derive(Debug, Clone, PartialEq, Eq)]
pub struct LazyArgs {
    pub name: Option<String>,
    pub preload_paths: Vec<String>,
    pub preload: bool,
}

impl LazyArgs {
    /// No arguments yet.
    pub fn new() -> (r: Self)
        ensures
            r.name is None,
            r.preload_paths@.len() == 0,
            !r.preload,
    {
        LazyArgs { name: None, preload_paths: Vec::new(), preload: false }
    }

    /// Records `name = value`; a later name replaces an earlier one.
    pub fn set_name(&mut self, value: String)
        ensures
            final(self).name matches Some(n) && n@ == value@,
            strings_view(final(self).preload_paths@) == strings_view(old(self).preload_paths@),
            final(self).preload == old(self).preload,
    {
        self.name = Some(value);
    }

    /// Records `preload_path = value`.
    pub fn add_path(&mut self, value: String)
        ensures
            strings_view(final(self).preload_paths@) == strings_view(old(self).preload_paths@).push(value@),
            final(self).name == old(self).name,
            final(self).preload == old(self).preload,
    {
        let ghost before = self.preload_paths@;
        self.preload_paths.push(value);
        assert(strings_view(self.preload_paths@) =~= strings_view(before).push(value@));
    }

    /// Records `preload_paths = [values]`.
    pub fn add_paths(&mut self, values: Vec<String>)
        ensures
            strings_view(final(self).preload_paths@) == strings_view(old(self).preload_paths@) + strings_view(values@),
            final(self).name == old(self).name,
            final(self).preload == old(self).preload,
    {
        let ghost start = strings_view(self.preload_paths@);
        let ghost name0 = self.name;
        let ghost preload0 = self.preload;
        let mut i: usize = 0;
        assert(start + strings_view(values@).take(0) =~= start);
        while i < values.len()
            invariant
                i <= values.len(),
                start == strings_view(old(self).preload_paths@),
                name0 == old(self).name,
                preload0 == old(self).preload,
                self.name == name0,
                self.preload == preload0,
                strings_view(self.preload_paths@) == start + strings_view(values@).take(i as int),
            decreases values.len() - i,
        {
            self.add_path(copy_string(&values[i]));
            assert(start + strings_view(values@).take(i + 1) =~= (start + strings_view(values@).take(i as int)).push(values@[i as int]@));
            i += 1;
        }
        assert(strings_view(values@).take(values.len() as int) =~= strings_view(values@));
    }

    /// Records `preload`.
    pub fn set_preload(&mut self)
        ensures
            final(self).preload,
            final(self).name == old(self).name,
            strings_view(final(self).preload_paths@) == strings_view(old(self).preload_paths@),
    {
        self.preload = true;
    }
}

/// The registrations an attribute emits: a global one first when `preload_globally`, then
/// one per preload path, in order; all under `source_name` and `split_prefix`.
pub open spec fn planned_registrations(
    preload_paths: Seq<Seq<char>>,
    preload_globally: bool,
    source_name: Seq<char>,
    split_prefix: Seq<char>,
) -> Seq<RegistrationView> {
    (if preload_globally {
        seq![RegistrationView { source_name, preload_path: None, split_prefix }]
    } else {
        Seq::empty()
    }) + preload_paths.map_values(
        |p: Seq<char>| RegistrationView { source_name, preload_path: Some(p), split_prefix },
    )
}

/// The registrations an attribute emits.
pub fn plan_registrations(preload_paths: &Vec<String>, preload_globally: bool, source_name: &str, split_prefix: &str) -> (r: Vec<
    PreloadRegistration,
>)
    ensures
        registrations_view(r@) == planned_registrations(strings_view(preload_paths@), preload_globally, source_name@, split_prefix@),
{
    let ghost paths = strings_view(preload_paths@);
    let ghost head: Seq<RegistrationView> = if preload_globally {
        seq![RegistrationView { source_name: source_name@, preload_path: None, split_prefix: split_prefix@ }]
    } else {
        Seq::empty()
    };
    let ghost f = |p: Seq<char>| RegistrationView { source_name: source_name@, preload_path: Some(p), split_prefix: split_prefix@ };
    let mut out: Vec<PreloadRegistration> = Vec::new();
    if preload_globally {
        out.push(PreloadRegistration { source_name: source_name.to_owned(), preload_path: None, split_prefix: split_prefix.to_owned() });
    }
    assert(registrations_view(out@) =~= head);
    let mut i: usize = 0;
    assert(head + paths.map_values(f).take(0) =~= head);
    while i < preload_paths.len()
        invariant
            i <= preload_paths.len(),
            paths == strings_view(preload_paths@),
            f == (|p: Seq<char>| RegistrationView { source_name: source_name@, preload_path: Some(p), split_prefix: split_prefix@ }),
            registrations_view(out@) == head + paths.map_values(f).take(i as int),
        decreases preload_paths.len() - i,
    {
        let reg = PreloadRegistration {
            source_name: source_name.to_owned(),
            preload_path: Some(copy_string(&preload_paths[i])),
            split_prefix: split_prefix.to_owned(),
        };
        let ghost before = out@;
        out.push(reg);
        assert(registrations_view(out@) =~= registrations_view(before).push(reg@));
        assert(reg@ == f(paths[i as int]));
        assert(head + paths.map_values(f).take(i + 1) =~= (head + paths.map_values(f).take(i as int)).push(f(paths[i as int])));
        i += 1;
    }
    assert(paths.map_values(f).take(preload_paths.len() as int) =~= paths.map_values(f));
    out
}

/// What `#[lazy]` emits.
#[derive(Debug, Clone, PartialEq, Eq)]
pub struct LazyPlan {
    /// The name handed to `#[leptos::lazy(..)]`, when the attribute names one.
    pub lazy_name: Option<String>,
    /// The name the split point is registered under.
    pub source_name: String,
    /// The manifest key prefix of the split point.
    pub split_prefix: String,
    /// The registrations emitted.
    pub registrations: Vec<PreloadRegistration>,
}

/// `name` followed by `_`.
pub open spec fn prefix_of(name: Seq<char>) -> Seq<char> {
    name.push('_')
}

/// `name` followed by `_`.
fn underscored(name: &str) -> (r: String)
    ensures
        r@ == prefix_of(name@),
{
    let mut s = name.to_owned();
    crate::text::push_char(&mut s, '_');
    s
}

/// Plans `#[lazy]` on the function `fn_name`: rejected when `preload` comes with preload
/// paths; otherwise registered under the given name or the function's name.
pub fn plan_lazy(args: &LazyArgs, fn_name: &str) -> (r: Result<LazyPlan, MacroError>)
    ensures
        match r {
            Err(e) => e == MacroError::PreloadWithPaths && args.preload && args.preload_paths@.len() > 0,
            Ok(plan) => {
                let source = match args.name {
                    Some(n) => n@,
                    None => fn_name@,
                };
                &&& !(args.preload && args.preload_paths@.len() > 0)
                &&& plan.source_name@ == source
                &&& plan.split_prefix@ == prefix_of(source)
                &&& match (plan.lazy_name, args.name) {
                    (Some(a), Some(b)) => a@ == b@,
                    (None, None) => true,
                    _ => false,
                }
                &&& registrations_view(plan.registrations@) == planned_registrations(
                    strings_view(args.preload_paths@),
                    args.preload,
                    source,
                    prefix_of(source),
                )
            },
        },
{
    if args.preload && args.preload_paths.len() > 0 {
        return Err(MacroError::PreloadWithPaths);
    }
    let (lazy_name, source_name) = match &args.name {
        Some(n) => (Some(copy_string(n)), copy_string(n)),
        None => (None, fn_name.to_owned()),
    };
    let split_prefix = underscored(source_name.as_str());
    let registrations = plan_registrations(&args.preload_paths, args.preload, source_name.as_str(), split_prefix.as_str());
    Ok(LazyPlan { lazy_name, source_name, split_prefix, registrations })
}

/// The self type of a `#[lazy_route]` impl.
#[derive(Debug, Clone, PartialEq, Eq)]
pub enum RouteType {
    /// Not a path type.
    NotPath,
    /// A path type; its final segment's identifier, if it has one.
    Path(Option<String>),
}

/// The name of the snake-case form of an identifier, as `convert_case` produces it.
pub uninterp spec fn spec_snake_case(s: Seq<char>) -> Seq<char>;

/// Snake case of `s`.
/// Trusted: `convert_case::Casing::to_case(Case::Snake)`, a function of `s` alone.
#[verifier::external_body]
fn to_snake_case(s: &str) -> (r: String)
    ensures
        r@ == spec_snake_case(s@),
{
    s.to_case(Case::Snake)
}

/// The route name derived from the self type: the snake case of its final path segment.
pub fn derive_route_name(ty: &RouteType) -> (r: Result<String, MacroError>)
    ensures
        match ty {
            RouteType::NotPath => r == Err::<String, MacroError>(MacroError::RouteTypeNotPath),
            RouteType::Path(None) => r == Err::<String, MacroError>(MacroError::RouteTypeWithoutSegment),
            RouteType::Path(Some(ident)) => r matches Ok(n) && n@ == spec_snake_case(ident@),
        },
{
    match ty {
        RouteType::NotPath => Err(MacroError::RouteTypeNotPath),
        RouteType::Path(None) => Err(MacroError::RouteTypeWithoutSegment),
        RouteType::Path(Some(ident)) => Ok(to_snake_case(ident.as_str())),
    }
}

/// The `view` method of a `#[lazy_route]` impl.
#[derive(Debug, Clone, Copy, PartialEq, Eq)]
pub enum ViewShape {
    Missing,
    Present { is_async: bool, has_typed_first_argument: bool },
}

/// What `#[lazy_route]` emits.
#[derive(Debug, Clone, PartialEq, Eq)]
pub struct LazyRoutePlan {
    /// The route name, which the split point is registered and named under.
    pub route_name: String,
    /// The helper function that holds the view body.
    pub helper_ident: String,
    /// The preload function `#[leptos::lazy]` generates for the helper.
    pub preload_ident: String,
    /// The registrations emitted.
    pub registrations: Vec<PreloadRegistration>,
}

/// An identifier without its raw prefix `r#`, as it reads when formatted into another one.
pub open spec fn unraw(ident: Seq<char>) -> Seq<char> {
    if ident.len() >= 2 && ident[0] == 'r' && ident[1] == '#' {
        ident.skip(2)
    } else {
        ident
    }
}

/// `__leptos_csr_preload_{route}_view`, with the route's raw prefix dropped.
pub open spec fn helper_ident_of(route: Seq<char>) -> Seq<char> {
    "__leptos_csr_preload_"@ + unraw(route) + "_view"@
}

/// `ident` without its raw prefix `r#`.
fn unraw_ident(ident: &str) -> (r: String)
    ensures
        r@ == unraw(ident@),
{
    let chars = chars_of(ident);
    if chars.len() >= 2 && chars[0] == 'r' && chars[1] == '#' {
        crate::text::string_from_range(&chars, 2, chars.len())
    } else {
        ident.to_owned()
    }
}

/// `__preload_{helper}`.
pub open spec fn preload_ident_of(helper: Seq<char>) -> Seq<char> {
    "__preload_"@ + helper
}

/// Why a `#[lazy_route]` impl is rejected, checked in this order: it defines `preload`
/// itself, it has no `view`, its `view` is `async`, its `view` has no typed first argument.
pub open spec fn lazy_route_fault(has_manual_preload: bool, view: ViewShape) -> Option<MacroError> {
    if has_manual_preload {
        Some(MacroError::ManualPreload)
    } else {
        match view {
            ViewShape::Missing => Some(MacroError::MissingView),
            ViewShape::Present { is_async, has_typed_first_argument } => if is_async {
                Some(MacroError::AsyncView)
            } else if !has_typed_first_argument {
                Some(MacroError::ViewWithoutArgument)
            } else {
                None
            },
        }
    }
}

/// Whether `plan` is what `#[lazy_route]` emits for the route `route_name`: the helper and
/// preload identifiers named after it, and one registration per preload path.
pub open spec fn is_route_plan(plan: LazyRoutePlan, route_name: Seq<char>, preload_paths: Seq<Seq<char>>) -> bool {
    &&& plan.route_name@ == route_name
    &&& plan.helper_ident@ == helper_ident_of(route_name)
    &&& plan.preload_ident@ == preload_ident_of(helper_ident_of(route_name))
    &&& registrations_view(plan.registrations@) == planned_registrations(
        preload_paths,
        false,
        route_name,
        prefix_of(route_name),
    )
}

/// The route name: the given one, or else the snake case of the self type's final segment.
pub open spec fn route_name_of(name: Option<Seq<char>>, ty: RouteType) -> Result<Seq<char>, MacroError> {
    match name {
        Some(n) => Ok(n),
        None => match ty {
            RouteType::NotPath => Err(MacroError::RouteTypeNotPath),
            RouteType::Path(None) => Err(MacroError::RouteTypeWithoutSegment),
            RouteType::Path(Some(ident)) => Ok(spec_snake_case(ident@)),
        },
    }
}

/// Plans `#[lazy_route]` for the route named `route_name`.
pub fn plan_lazy_route_named(
    route_name: String,
    has_manual_preload: bool,
    view: ViewShape,
    preload_paths: &Vec<String>,
) -> (r: Result<LazyRoutePlan, MacroError>)
    ensures
        match lazy_route_fault(has_manual_preload, view) {
            Some(e) => r == Err::<LazyRoutePlan, MacroError>(e),
            None => r matches Ok(plan) && is_route_plan(plan, route_name@, strings_view(preload_paths@)),
        },
{
    if has_manual_preload {
        return Err(MacroError::ManualPreload);
    }
    match view {
        ViewShape::Missing => {
            return Err(MacroError::MissingView);
        },
        ViewShape::Present { is_async, has_typed_first_argument } => {
            if is_async {
                return Err(MacroError::AsyncView);
            }
            if !has_typed_first_argument {
                return Err(MacroError::ViewWithoutArgument);
            }
        },
    }
    let mut helper_ident = "__leptos_csr_preload_".to_owned();
    helper_ident.append(unraw_ident(route_name.as_str()).as_str());
    helper_ident.append("_view");
    let mut preload_ident = "__preload_".to_owned();
    preload_ident.append(helper_ident.as_str());
    let split_prefix = underscored(route_name.as_str());
    let registrations = plan_registrations(preload_paths, false, route_name.as_str(), split_prefix.as_str());
    Ok(LazyRoutePlan { route_name, helper_ident, preload_ident, registrations })
}

/// Plans `#[lazy_route]`: the route name is the given one or the one derived from the self
/// type, whose failure is reported first; then as [`plan_lazy_route_named`].
pub fn plan_lazy_route(
    name: Option<String>,
    ty: &RouteType,
    has_manual_preload: bool,
    view: ViewShape,
    preload_paths: &Vec<String>,
) -> (r: Result<LazyRoutePlan, MacroError>)
    ensures
        match route_name_of(
            match name {
                Some(n) => Some(n@),
                None => None,
            },
            *ty,
        ) {
            Err(e) => r == Err::<LazyRoutePlan, MacroError>(e),
            Ok(n) => match lazy_route_fault(has_manual_preload, view) {
                Some(e) => r == Err::<LazyRoutePlan, MacroError>(e),
                None => r matches Ok(plan) && is_route_plan(plan, n, strings_view(preload_paths@)),
            },
        },
{
    let route_name = match name {
        Some(n) => n,
        None => match derive_route_name(ty) {
            Ok(n) => n,
            Err(e) => {
                return Err(e);
            },
        },
    };
    plan_lazy_route_named(route_name, has_manual_preload, view, preload_paths)
}

} // verus!
