//! The decisions of an SPA fallback server: when a request gets `index.html` with preloads
//! instead of the static file it asked for.

use crate::html::{
    asset_href_of, lemma_rendered_has_wasm_tag, preloads_view, rendered, wasm_preload_tag,
    IndexHtmlTemplate, TemplateView,
};
use crate::index::{
    lemma_global_preloads_on_every_route, resolution, IndexView, PreloadIndex, ResolvedPreloads,
};
use crate::pattern::vec_equal;
use crate::pattern::pattern_matches;
use crate::registry::{PreloadRegistry, RegistrationView};
use crate::text::{
    after_last, before_first, chars_of, contains_exec, contains_seq, first_index_of, last_end_of,
    occurs_at,
    same_chars, strip_bounds, strip_end,
};
use std::path::PathBuf;
use vstd::prelude::*;

verus! {

/// Which precompressed variants of static assets are served.
#[derive(Debug, Clone, Copy, PartialEq, Eq)]
pub struct PrecompressedAssets {
    pub gzip: bool,
    pub br: bool,
    pub deflate: bool,
    pub zstd: bool,
}

impl Default for PrecompressedAssets {
    fn default() -> (r: Self)
        ensures
            !r.gzip && !r.br && !r.deflate && !r.zstd,
    {
        PrecompressedAssets { gzip: false, br: false, deflate: false, zstd: false }
    }
}

/// The settings of an SPA fallback service, gathered before it is built.
#[derive(Debug)]
pub struct SpaFallbackBuilder {
    dist_dir: PathBuf,
    registry: PreloadRegistry,
    asset_base: String,
    precompressed: PrecompressedAssets,
}

/// The mathematical model of a [`SpaFallbackBuilder`].
pub struct BuilderView {
    pub dist_dir: PathBuf,
    pub registry: Seq<RegistrationView>,
    pub asset_base: Seq<char>,
    pub precompressed: PrecompressedAssets,
}

impl View for SpaFallbackBuilder {
    type V = BuilderView;

    closed spec fn view(&self) -> BuilderView {
        BuilderView {
            dist_dir: self.dist_dir,
            registry: self.registry@,
            asset_base: self.asset_base@,
            precompressed: self.precompressed,
        }
    }
}

impl SpaFallbackBuilder {
    /// Settings for serving `dist_dir` with the preloads of `registry`, under asset base `/`,
    /// with no precompressed variants.
    pub fn new(dist_dir: PathBuf, registry: PreloadRegistry) -> (r: Self)
        ensures
            r@.dist_dir == dist_dir,
            r@.registry == registry@,
            r@.asset_base == seq!['/'],
            r@.precompressed == (PrecompressedAssets { gzip: false, br: false, deflate: false, zstd: false }),
    {
        let mut base = String::new();
        crate::text::push_char(&mut base, '/');
        assert(base@ =~= seq!['/']);
        SpaFallbackBuilder { dist_dir, registry, asset_base: base, precompressed: PrecompressedAssets::default() }
    }

    /// The same settings under another asset base.
    pub fn asset_base(self, asset_base: &str) -> (r: Self)
        ensures
            r@.asset_base == asset_base@,
            r@.dist_dir == self@.dist_dir,
            r@.registry == self@.registry,
            r@.precompressed == self@.precompressed,
    {
        let mut s = self;
        s.asset_base = asset_base.to_owned();
        s
    }

    /// The same settings, also serving `.gz` variants.
    pub fn precompressed_gzip(self) -> (r: Self)
        ensures
            r@.precompressed == (PrecompressedAssets { gzip: true, ..self@.precompressed }),
            r@.dist_dir == self@.dist_dir,
            r@.registry == self@.registry,
            r@.asset_base == self@.asset_base,
    {
        let mut s = self;
        s.precompressed.gzip = true;
        s
    }

    /// The same settings, also serving `.br` variants.
    pub fn precompressed_br(self) -> (r: Self)
        ensures
            r@.precompressed == (PrecompressedAssets { br: true, ..self@.precompressed }),
            r@.dist_dir == self@.dist_dir,
            r@.registry == self@.registry,
            r@.asset_base == self@.asset_base,
    {
        let mut s = self;
        s.precompressed.br = true;
        s
    }

    /// The same settings, also serving `.zz` (deflate) variants.
    pub fn precompressed_deflate(self) -> (r: Self)
        ensures
            r@.precompressed == (PrecompressedAssets { deflate: true, ..self@.precompressed }),
            r@.dist_dir == self@.dist_dir,
            r@.registry == self@.registry,
            r@.asset_base == self@.asset_base,
    {
        let mut s = self;
        s.precompressed.deflate = true;
        s
    }

    /// The same settings, also serving `.zst` variants.
    pub fn precompressed_zstd(self) -> (r: Self)
        ensures
            r@.precompressed == (PrecompressedAssets { zstd: true, ..self@.precompressed }),
            r@.dist_dir == self@.dist_dir,
            r@.registry == self@.registry,
            r@.asset_base == self@.asset_base,
    {
        let mut s = self;
        s.precompressed.zstd = true;
        s
    }

    /// The directory to serve.
    pub fn dist_dir(&self) -> (r: &PathBuf)
        ensures
            *r == self@.dist_dir,
    {
        &self.dist_dir
    }

    /// The registry whose preloads are injected.
    pub fn registry(&self) -> (r: &PreloadRegistry)
        ensures
            r@ == self@.registry,
    {
        &self.registry
    }

    /// The asset base the preload URLs are built under.
    pub fn configured_asset_base(&self) -> (r: &str)
        ensures
            r@ == self@.asset_base,
    {
        self.asset_base.as_str()
    }

    /// The precompressed variants to serve.
    pub fn precompressed(&self) -> (r: PrecompressedAssets)
        ensures
            r == self@.precompressed,
    {
        self.precompressed
    }
}

/// The `Accept` header of a request.
#[derive(Debug, Clone, PartialEq, Eq)]
pub enum AcceptHeader {
    /// The request has no `Accept` header.
    Absent,
    /// The header value is not visible ASCII text.
    Unreadable,
    /// The header value.
    Text(String),
}

/// Whether a request with this method and `Accept` header wants an HTML page: it is a `GET`
/// or `HEAD`, and it names no `Accept` header or one that mentions `text/html` or
/// `application/xhtml+xml`.
pub open spec fn accepts_html(method: Seq<char>, accept: AcceptHeader) -> bool {
    &&& (method == "GET"@ || method == "HEAD"@)
    &&& match accept {
        AcceptHeader::Absent => true,
        AcceptHeader::Unreadable => false,
        AcceptHeader::Text(t) => contains_seq(t@, "text/html"@) || contains_seq(t@, "application/xhtml+xml"@),
    }
}

/// Whether `path` looks like a client-side route rather than a file: after dropping the
/// query and trailing `/`, it is empty or its last segment holds no `.`.
pub open spec fn looks_like_spa_route(path: Seq<char>) -> bool {
    let normalized = strip_end(before_first(path, '?'), '/');
    normalized.len() == 0 || !after_last(normalized, '/').contains('.')
}

/// Whether a request with this method and `Accept` header wants an HTML page.
pub fn request_accepts_html(method: &str, accept: &AcceptHeader) -> (r: bool)
    ensures
        r == accepts_html(method@, *accept),
{
    if !(same_chars(method, "GET") || same_chars(method, "HEAD")) {
        return false;
    }
    match accept {
        AcceptHeader::Absent => true,
        AcceptHeader::Unreadable => false,
        AcceptHeader::Text(t) => {
            let value = chars_of(t.as_str());
            contains_exec(&value, &chars_of("text/html")) || contains_exec(&value, &chars_of("application/xhtml+xml"))
        },
    }
}

/// Whether `path` looks like a client-side route rather than a file.
pub fn path_looks_like_spa_route(path: &str) -> (r: bool)
    ensures
        r == looks_like_spa_route(path@),
{
    let chars = chars_of(path);
    let end = first_index_of(&chars, '?');
    let (lo, hi) = strip_bounds(&chars, 0, end, '/', false, true);
    assert(chars@.subrange(0, end as int) =~= before_first(path@, '?'));
    if lo == hi {
        return true;
    }
    let normalized = crate::text::vec_from_range(&chars, lo, hi);
    let start = last_end_of(&normalized, '/');
    let mut i = start;
    while i < normalized.len()
        invariant
            start <= i <= normalized.len(),
            start == crate::text::last_end(normalized@, '/'),
            normalized@ == strip_end(before_first(path@, '?'), '/'),
            normalized@.len() > 0,
            forall|k: int| start <= k < i ==> normalized@[k] != '.',
        decreases normalized.len() - i,
    {
        if normalized[i] == '.' {
            assert(after_last(normalized@, '/')[i - start] == '.');
            assert(after_last(normalized@, '/').contains('.'));
            return false;
        }
        i += 1;
    }
    assert(!after_last(normalized@, '/').contains('.')) by {
        if after_last(normalized@, '/').contains('.') {
            let k = choose|k: int| 0 <= k < after_last(normalized@, '/').len() && after_last(normalized@, '/')[k] == '.';
            assert(normalized@[start + k] == '.');
        }
    }
    true
}

/// What serving a request needs to know before trying the static file.
#[derive(Debug, Clone, PartialEq, Eq)]
pub struct RequestPlan {
    /// Whether a failed static lookup falls back to `index.html`.
    pub should_fallback: bool,
    /// Whether the request is an HTML navigation to the index page itself, which is
    /// rendered with its preloads rather than sent as stored.
    pub serves_index_page: bool,
    /// The preloads that `index.html` would carry.
    pub preloads: Option<ResolvedPreloads>,
}

/// Whether a request whose static lookup fails gets `index.html`: it wants HTML, and its
/// path matches a registered route or looks like a client-side route.
pub open spec fn fallback_wanted(index: IndexView, path: Seq<char>, method: Seq<char>, accept: AcceptHeader) -> bool {
    accepts_html(method, accept) && ((exists|i: int|
        0 <= i < index.entries.len() && pattern_matches(#[trigger] index.entries[i].pattern, path))
        || looks_like_spa_route(path))
}

/// Whether `path` names the index page itself: `/` or `/index.html`, the query dropped.
pub open spec fn names_index_page(path: Seq<char>) -> bool {
    let p = before_first(path, '?');
    p.len() == 0 || p == "/"@ || p == "/index.html"@
}

/// Whether a request is an HTML navigation to the index page itself.
pub open spec fn index_page_wanted(path: Seq<char>, method: Seq<char>, accept: AcceptHeader) -> bool {
    accepts_html(method, accept) && names_index_page(path)
}

/// Whether `path` names the index page itself.
pub fn path_names_index_page(path: &str) -> (r: bool)
    ensures
        r == names_index_page(path@),
{
    let chars = chars_of(path);
    let end = first_index_of(&chars, '?');
    let before = crate::text::vec_from_range(&chars, 0, end);
    assert(before@ =~= before_first(path@, '?'));
    before.len() == 0 || vec_equal(&before, &chars_of("/")) || vec_equal(&before, &chars_of("/index.html"))
}

/// Plans a request for `path` (the URI path, without the query).
pub fn plan_request(index: &PreloadIndex, path: &str, method: &str, accept: &AcceptHeader) -> (r: RequestPlan)
    ensures
        r.should_fallback == fallback_wanted(index@, path@, method@, *accept),
        r.serves_index_page == index_page_wanted(path@, method@, *accept),
        match r.preloads {
            None => resolution(index@, path@) is None,
            Some(p) => resolution(index@, path@) == Some(p@),
        },
{
    let has_path_match = index.has_path_match(path);
    let preloads = index.resolve(path);
    let wants_html = request_accepts_html(method, accept);
    let should_fallback = wants_html && (has_path_match || path_looks_like_spa_route(path));
    let serves_index_page = wants_html && path_names_index_page(path);
    RequestPlan { should_fallback, serves_index_page, preloads }
}

/// How the static file service answered.
#[derive(Debug, Clone, Copy, PartialEq, Eq)]
pub enum StaticOutcome {
    /// A `200 OK` response.
    Found,
    /// A response with any other status.
    OtherStatus,
    /// The service failed.
    Failed,
}

/// What the server sends.
#[derive(Debug, Clone, Copy, PartialEq, Eq)]
pub enum ServeAction {
    /// The static service's response.
    StaticResponse,
    /// An internal-server-error response.
    ErrorResponse,
    /// `index.html` with the planned preloads.
    RenderIndex,
}

/// The response to a static lookup with this outcome: the index page asked for as HTML is
/// rendered with its preloads, any other found file is served, a service failure is
/// reported, and any other status is passed on unless the request falls back to `index.html`.
pub open spec fn response_for(outcome: StaticOutcome, should_fallback: bool, serves_index_page: bool) -> ServeAction {
    match outcome {
        StaticOutcome::Found => if serves_index_page {
            ServeAction::RenderIndex
        } else {
            ServeAction::StaticResponse
        },
        StaticOutcome::Failed => ServeAction::ErrorResponse,
        StaticOutcome::OtherStatus => if should_fallback {
            ServeAction::RenderIndex
        } else {
            ServeAction::StaticResponse
        },
    }
}

/// The response to a static lookup with this outcome.
pub fn choose_response(outcome: StaticOutcome, should_fallback: bool, serves_index_page: bool) -> (r: ServeAction)
    ensures
        r == response_for(outcome, should_fallback, serves_index_page),
{
    match outcome {
        StaticOutcome::Found => if serves_index_page {
            ServeAction::RenderIndex
        } else {
            ServeAction::StaticResponse
        },
        StaticOutcome::OtherStatus => if should_fallback {
            ServeAction::RenderIndex
        } else {
            ServeAction::StaticResponse
        },
        StaticOutcome::Failed => ServeAction::ErrorResponse,
    }
}

/// What a request is answered with.
#[derive(Debug, Clone, PartialEq, Eq)]
pub enum Served {
    /// The static service's response, as it came.
    Static,
    /// An internal-server-error response.
    Error,
    /// This HTML page: `index.html` with the request's preloads.
    Page(String),
}

/// The response to a request for `path` whose static lookup had `outcome`: the decision
/// of [`response_for`], and for the index page the template rendered with the preloads
/// that the index resolves for `path`.
pub fn respond(
    index: &PreloadIndex,
    template: &IndexHtmlTemplate,
    asset_base: &str,
    path: &str,
    method: &str,
    accept: &AcceptHeader,
    outcome: StaticOutcome,
) -> (r: Served)
    ensures
        match response_for(
            outcome,
            fallback_wanted(index@, path@, method@, *accept),
            index_page_wanted(path@, method@, *accept),
        ) {
            ServeAction::StaticResponse => r == Served::Static,
            ServeAction::ErrorResponse => r == Served::Error,
            ServeAction::RenderIndex => r matches Served::Page(html) && html@ == rendered(
                template@,
                asset_base@,
                resolution(index@, path@),
            ),
        },
{
    let plan = plan_request(index, path, method, accept);
    match choose_response(outcome, plan.should_fallback, plan.serves_index_page) {
        ServeAction::StaticResponse => Served::Static,
        ServeAction::ErrorResponse => Served::Error,
        ServeAction::RenderIndex => {
            let preloads = plan.preloads.as_ref();
            assert(preloads_view(preloads) == resolution(index@, path@));
            Served::Page(template.render(asset_base, preloads))
        },
    }
}

/// `index.html` is sent exactly when the request wants HTML and either asked for the index
/// page itself and found it, or missed a file on a path that matches a registered route or
/// looks like a client-side route; a missing asset such as `/assets/app.js` keeps its static
/// response.
pub proof fn lemma_index_only_for_html_routes(index: IndexView, path: Seq<char>, method: Seq<char>, accept: AcceptHeader, outcome: StaticOutcome)
    ensures
        response_for(outcome, fallback_wanted(index, path, method, accept), index_page_wanted(path, method, accept))
            == ServeAction::RenderIndex <==> accepts_html(method, accept) && {
            ||| outcome == StaticOutcome::Found && names_index_page(path)
            ||| outcome == StaticOutcome::OtherStatus && ((exists|i: int|
                0 <= i < index.entries.len() && pattern_matches(#[trigger] index.entries[i].pattern, path))
                || looks_like_spa_route(path))
        },
{
}

/// The global (`preload`) splits are preloaded on every HTML page served: whenever a request
/// is answered with `index.html`, the page is rendered with the request's preloads, which
/// hold every file of every global entry, and each such file's preload tag is on the page
/// unless the page already references its URL.
pub proof fn lemma_global_preloads_on_every_html_response(
    index: IndexView,
    t: TemplateView,
    asset_base: Seq<char>,
    path: Seq<char>,
    method: Seq<char>,
    accept: AcceptHeader,
    outcome: StaticOutcome,
)
    requires
        index.global_entries.len() > 0,
        response_for(outcome, fallback_wanted(index, path, method, accept), index_page_wanted(path, method, accept))
            == ServeAction::RenderIndex,
    ensures
        resolution(index, path) matches Some(r) && forall|i: int, j: int|
            0 <= i < index.global_entries.len() && 0 <= j < index.global_entries[i].wasm_chunks.len() ==> {
                let w = #[trigger] index.global_entries[i].wasm_chunks[j];
                &&& r.wasm_chunks.contains(w)
                &&& (t.existing_hrefs.contains(asset_href_of(asset_base, w)) || contains_seq(
                    rendered(t, asset_base, Some(r)),
                    wasm_preload_tag(asset_href_of(asset_base, w)),
                ))
            },
{
    lemma_global_preloads_on_every_route(index, path);
    let r = resolution(index, path)->0;
    assert forall|i: int, j: int|
        0 <= i < index.global_entries.len() && 0 <= j < index.global_entries[i].wasm_chunks.len() implies {
            let w = #[trigger] index.global_entries[i].wasm_chunks[j];
            &&& r.wasm_chunks.contains(w)
            &&& (t.existing_hrefs.contains(asset_href_of(asset_base, w)) || contains_seq(
                rendered(t, asset_base, Some(r)),
                wasm_preload_tag(asset_href_of(asset_base, w)),
            ))
        } by {
        let w = index.global_entries[i].wasm_chunks[j];
        if !t.existing_hrefs.contains(asset_href_of(asset_base, w)) {
            lemma_rendered_has_wasm_tag(t, asset_base, r, w);
        }
    }
}

/// Which requests want HTML: only `GET` and `HEAD` requests, and of those the ones with no
/// `Accept` header or one whose text holds `text/html` or `application/xhtml+xml`; a header
/// such as `*/*` or `application/json` that holds neither does not.
pub proof fn lemma_html_acceptance(method: Seq<char>, accept: AcceptHeader)
    ensures
        accepts_html(method, accept) ==> method == "GET"@ || method == "HEAD"@,
        (method == "GET"@ || method == "HEAD"@) ==> accepts_html(method, AcceptHeader::Absent),
        !accepts_html(method, AcceptHeader::Unreadable),
        accept matches AcceptHeader::Text(t) ==> (accepts_html(method, accept) <==> {
            &&& (method == "GET"@ || method == "HEAD"@)
            &&& {
                ||| exists|i: int| 0 <= i && i + "text/html"@.len() <= t@.len() && #[trigger] t@.subrange(i, i + "text/html"@.len()) == "text/html"@
                ||| exists|i: int| 0 <= i && i + "application/xhtml+xml"@.len() <= t@.len() && #[trigger] t@.subrange(
                    i,
                    i + "application/xhtml+xml"@.len(),
                ) == "application/xhtml+xml"@
            }
        }),
{
    if let AcceptHeader::Text(t) = accept {
        let a = "text/html"@;
        let b = "application/xhtml+xml"@;
        if contains_seq(t@, a) {
            let i = choose|i: int| occurs_at(t@, a, i);
            assert(t@.subrange(i, i + a.len()) == a);
        }
        if contains_seq(t@, b) {
            let i = choose|i: int| occurs_at(t@, b, i);
            assert(t@.subrange(i, i + b.len()) == b);
        }
        if exists|i: int| 0 <= i && i + a.len() <= t@.len() && #[trigger] t@.subrange(i, i + a.len()) == a {
            let i = choose|i: int| 0 <= i && i + a.len() <= t@.len() && #[trigger] t@.subrange(i, i + a.len()) == a;
            assert(occurs_at(t@, a, i));
        }
        if exists|i: int| 0 <= i && i + b.len() <= t@.len() && #[trigger] t@.subrange(i, i + b.len()) == b {
            let i = choose|i: int| 0 <= i && i + b.len() <= t@.len() && #[trigger] t@.subrange(i, i + b.len()) == b;
            assert(occurs_at(t@, b, i));
        }
    }
}

} // verus!
