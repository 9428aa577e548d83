//! Injecting preload tags into `index.html`.

use crate::index::{ResolvedPreloads, ResolvedView};
use crate::text::{
    ascii_lower, ascii_lower_seq, ascii_lowercase, chars_of, contains_seq, find_from, first_occurrence,
    lemma_first_occurrence, occurs_at,
    push_all, same_chars, strings_view, string_from_range, strip_bounds, strip_end, trim,
    trim_bounds,
};
use vstd::prelude::*;

verus! {

/// `index.html` split where preload tags go, with the `href` values it already holds.
#[derive(Debug, Clone)]
pub struct IndexHtmlTemplate {
    head_prefix: String,
    tail: String,
    existing_hrefs: Vec<String>,
}

/// The mathematical model of an [`IndexHtmlTemplate`].
#[verifier::ext_equal]
pub struct TemplateView {
    pub head_prefix: Seq<char>,
    pub tail: Seq<char>,
    pub existing_hrefs: Set<Seq<char>>,
}

impl View for IndexHtmlTemplate {
    type V = TemplateView;

    closed spec fn view(&self) -> TemplateView {
        TemplateView {
            head_prefix: self.head_prefix@,
            tail: self.tail@,
            existing_hrefs: strings_view(self.existing_hrefs@).to_set(),
        }
    }
}

/// `</head>`.
pub open spec fn head_close_marker() -> Seq<char> {
    seq!['<', '/', 'h', 'e', 'a', 'd', '>']
}

/// `href=`.
pub open spec fn href_marker() -> Seq<char> {
    seq!['h', 'r', 'e', 'f', '=']
}

/// Where the first `</head>` of `html` starts, ignoring ASCII case; its length when there is none.
pub open spec fn head_close(html: Seq<char>) -> nat {
    match first_occurrence(ascii_lower_seq(html), head_close_marker(), 0) {
        Some(k) => k,
        None => html.len(),
    }
}

/// The quoted values of the `href=` attributes of `html`, scanning left to right: after each
/// `href=` that a `'` or `"` follows, the text up to the matching quote; the scan stops at a
/// quote that is never closed.
pub open spec fn hrefs_in(html: Seq<char>) -> Seq<Seq<char>>
    decreases html.len(),
{
    match first_occurrence(html, href_marker(), 0) {
        None => Seq::empty(),
        Some(p) => {
            proof {
                lemma_first_occurrence(html, href_marker(), 0);
            }
            let rest = html.skip(p + 5int);
            if rest.len() > 0 && (rest[0] == '\'' || rest[0] == '"') {
                let body = rest.skip(1);
                match first_occurrence(body, seq![rest[0]], 0) {
                    None => Seq::empty(),
                    Some(e) => {
                        proof {
                            lemma_first_occurrence(body, seq![rest[0]], 0);
                        }
                        seq![body.take(e as int)] + hrefs_in(body.skip(e + 1int))
                    },
                }
            } else {
                hrefs_in(rest)
            }
        },
    }
}

/// The URL of `file` under the asset base: `/file` when the trimmed base is empty or `/`,
/// otherwise the trimmed base without trailing `/`, then `/file`.
pub open spec fn asset_href_of(asset_base: Seq<char>, file: Seq<char>) -> Seq<char> {
    let base = trim(asset_base);
    if base.len() == 0 || base == seq!['/'] {
        seq!['/'] + file
    } else {
        strip_end(base, '/') + seq!['/'] + file
    }
}

/// The tag that preloads the loader script at `href`.
pub open spec fn module_preload_tag(href: Seq<char>) -> Seq<char> {
    "<link rel=\"modulepreload\" href=\""@ + href + "\">"@
}

/// The tag that preloads the WASM file at `href`.
pub open spec fn wasm_preload_tag(href: Seq<char>) -> Seq<char> {
    "<link rel=\"preload\" href=\""@ + href + "\" as=\"fetch\" type=\"application/wasm\" crossorigin>"@
}

/// The preload tags of the WASM files, in order, skipping those whose URL is already present.
pub open spec fn wasm_tags(chunks: Seq<Seq<char>>, asset_base: Seq<char>, existing: Set<Seq<char>>) -> Seq<char>
    decreases chunks.len(),
{
    if chunks.len() == 0 {
        Seq::empty()
    } else {
        let href = asset_href_of(asset_base, chunks.last());
        wasm_tags(chunks.drop_last(), asset_base, existing) + if existing.contains(href) {
            Seq::<char>::empty()
        } else {
            wasm_preload_tag(href)
        }
    }
}

/// The preload tags of `p`: the loader's, unless it is empty or already present, then the
/// WASM files'.
pub open spec fn preload_tags_of(p: ResolvedView, asset_base: Seq<char>, existing: Set<Seq<char>>) -> Seq<char> {
    let loader_href = asset_href_of(asset_base, p.loader);
    (if p.loader.len() > 0 && !existing.contains(loader_href) {
        module_preload_tag(loader_href)
    } else {
        Seq::<char>::empty()
    }) + wasm_tags(p.wasm_chunks, asset_base, existing)
}

/// The template that [`IndexHtmlTemplate::parse`] makes of `html`.
pub open spec fn template_of(html: Seq<char>) -> TemplateView {
    TemplateView {
        head_prefix: html.take(head_close(html) as int),
        tail: html.skip(head_close(html) as int),
        existing_hrefs: hrefs_in(html).to_set(),
    }
}

/// The page a template renders: the head up to `</head>`, the preload tags, the rest.
pub open spec fn rendered(t: TemplateView, asset_base: Seq<char>, preloads: Option<ResolvedView>) -> Seq<char> {
    t.head_prefix + match preloads {
        None => Seq::<char>::empty(),
        Some(p) => preload_tags_of(p, asset_base, t.existing_hrefs),
    } + t.tail
}

/// The URL of `file` under `asset_base`.
pub fn asset_href(asset_base: &str, file: &str) -> (r: String)
    ensures
        r@ == asset_href_of(asset_base@, file@),
{
    let base = chars_of(asset_base);
    let file_chars = chars_of(file);
    let (lo, hi) = trim_bounds(&base);
    let mut out = String::new();
    if lo == hi || (hi - lo == 1 && base[lo] == '/') {
        proof {
            if hi - lo == 1 {
                assert(base@.subrange(lo as int, hi as int) =~= seq!['/']);
            }
        }
        crate::text::push_char(&mut out, '/');
        push_all(&mut out, &file_chars);
        assert(out@ =~= seq!['/'] + file@);
    } else {
        proof {
            if base@.subrange(lo as int, hi as int) == seq!['/'] {
                assert(base@.subrange(lo as int, hi as int)[0] == base@[lo as int]);
            }
        }
        let (a, b) = strip_bounds(&base, lo, hi, '/', false, true);
        crate::text::push_range(&mut out, &base, a, b);
        crate::text::push_char(&mut out, '/');
        push_all(&mut out, &file_chars);
        assert(out@ =~= strip_end(trim(asset_base@), '/') + seq!['/'] + file@);
    }
    out
}

/// Whether `v` holds a string equal to `x`.
fn contains_string(v: &Vec<String>, x: &String) -> (r: bool)
    ensures
        r == strings_view(v@).to_set().contains(x@),
{
    let mut i: usize = 0;
    while i < v.len()
        invariant
            i <= v.len(),
            forall|j: int| 0 <= j < i ==> strings_view(v@)[j] != x@,
        decreases v.len() - i,
    {
        if same_chars(v[i].as_str(), x.as_str()) {
            assert(strings_view(v@)[i as int] == x@);
            return true;
        }
        i += 1;
    }
    false
}

impl ResolvedPreloads {
    /// The preload tags of these preloads, skipping URLs in `existing_hrefs`.
    pub fn preload_tags(&self, asset_base: &str, existing_hrefs: &Vec<String>) -> (r: String)
        ensures
            r@ == preload_tags_of(self@, asset_base@, strings_view(existing_hrefs@).to_set()),
    {
        let ghost existing = strings_view(existing_hrefs@).to_set();
        let mut tags = String::new();
        let loader_href = asset_href(asset_base, self.loader.as_str());
        if !self.loader.as_str().is_empty() && !contains_string(existing_hrefs, &loader_href) {
            tags.append("<link rel=\"modulepreload\" href=\"");
            tags.append(loader_href.as_str());
            tags.append("\">");
        }
        proof {
            if !(self.loader@.len() > 0 && !existing.contains(loader_href@)) {
                assert(tags@ =~= Seq::<char>::empty());
            }
        }
        let ghost head = tags@;
        let mut i: usize = 0;
        let ghost chunks = strings_view(self.wasm_chunks@);
        assert(chunks.take(0) =~= Seq::<Seq<char>>::empty());
        assert(head + Seq::<char>::empty() =~= head);
        while i < self.wasm_chunks.len()
            invariant
                i <= self.wasm_chunks.len(),
                chunks == strings_view(self.wasm_chunks@),
                existing == strings_view(existing_hrefs@).to_set(),
                tags@ == head + wasm_tags(chunks.take(i as int), asset_base@, existing),
            decreases self.wasm_chunks.len() - i,
        {
            let wasm_href = asset_href(asset_base, self.wasm_chunks[i].as_str());
            let ghost before = tags@;
            proof {
                assert(chunks.take(i + 1).drop_last() =~= chunks.take(i as int));
                assert(chunks.take(i + 1).last() == self.wasm_chunks@[i as int]@);
            }
            if !contains_string(existing_hrefs, &wasm_href) {
                tags.append("<link rel=\"preload\" href=\"");
                tags.append(wasm_href.as_str());
                tags.append("\" as=\"fetch\" type=\"application/wasm\" crossorigin>");
                assert(tags@ =~= head + wasm_tags(chunks.take(i + 1), asset_base@, existing));
            } else {
                assert(tags@ =~= head + wasm_tags(chunks.take(i + 1), asset_base@, existing));
            }
            i += 1;
        }
        assert(chunks.take(self.wasm_chunks.len() as int) =~= chunks);
        tags
    }
}


/// Where the first `</head>` of `html` starts, ignoring ASCII case; its length when there is none.
fn find_head_close(html: &Vec<char>) -> (r: usize)
    ensures
        r == head_close(html@),
        r <= html.len(),
{
    let lowered = ascii_lowercase(html);
    let marker = vec!['<', '/', 'h', 'e', 'a', 'd', '>'];
    assert(marker@ =~= head_close_marker());
    proof {
        lemma_first_occurrence(lowered@, marker@, 0);
    }
    match find_from(&lowered, &marker, 0) {
        Some(k) => k,
        None => html.len(),
    }
}

/// The `href` values of `html`, in order.
fn collect_hrefs(html: &Vec<char>) -> (r: Vec<String>)
    ensures
        strings_view(r@) == hrefs_in(html@),
{
    let marker = vec!['h', 'r', 'e', 'f', '='];
    assert(marker@ =~= href_marker());
    let mut out: Vec<String> = Vec::new();
    let mut rest = crate::text::vec_from_range(html, 0, html.len());
    assert(rest@ =~= html@);
    assert(strings_view(out@) + hrefs_in(rest@) =~= hrefs_in(rest@));
    loop
        invariant
            marker@ == href_marker(),
            hrefs_in(html@) == strings_view(out@) + hrefs_in(rest@),
        ensures
            hrefs_in(html@) == strings_view(out@),
        decreases rest.len(),
    {
        proof {
            lemma_first_occurrence(rest@, marker@, 0);
        }
        match find_from(&rest, &marker, 0) {
            None => {
                assert(strings_view(out@) + Seq::<Seq<char>>::empty() =~= strings_view(out@));
                break;
            },
            Some(p) => {
                let after = crate::text::vec_from_range(&rest, p + 5, rest.len());
                assert(after@ =~= rest@.skip(p + 5));
                if after.len() > 0 && (after[0] == '\'' || after[0] == '"') {
                    let q = vec![after[0]];
                    assert(q@ =~= seq![after@[0]]);
                    let body = crate::text::vec_from_range(&after, 1, after.len());
                    assert(body@ =~= after@.skip(1));
                    proof {
                        lemma_first_occurrence(body@, q@, 0);
                    }
                    match find_from(&body, &q, 0) {
                        None => {
                            assert(strings_view(out@) + Seq::<Seq<char>>::empty() =~= strings_view(out@));
                            break;
                        },
                        Some(e) => {
                            let value = string_from_range(&body, 0, e);
                            assert(value@ =~= body@.take(e as int));
                            let ghost before = out@;
                            out.push(value);
                            let next = crate::text::vec_from_range(&body, e + 1, body.len());
                            assert(next@ =~= body@.skip(e + 1));
                            assert(strings_view(out@) =~= strings_view(before).push(value@));
                            assert(strings_view(before) + (seq![value@] + hrefs_in(next@))
                                =~= strings_view(out@) + hrefs_in(next@));
                            rest = next;
                        },
                    }
                } else {
                    rest = after;
                }
            },
        }
    }
    out
}

/// The preloads as an optional view.
pub open spec fn preloads_view(p: Option<&ResolvedPreloads>) -> Option<ResolvedView> {
    match p {
        Some(r) => Some(r@),
        None => None,
    }
}

impl IndexHtmlTemplate {
    /// Splits `index_html` before its first `</head>` (any ASCII case; at the end when there
    /// is none) and records the `href` values it holds.
    pub fn parse(index_html: &str) -> (r: Self)
        ensures
            r@ == template_of(index_html@),
    {
        let html = chars_of(index_html);
        let head_close_at = find_head_close(&html);
        let head_prefix = string_from_range(&html, 0, head_close_at);
        let tail = string_from_range(&html, head_close_at, html.len());
        let existing_hrefs = collect_hrefs(&html);
        assert(html@.subrange(0, head_close_at as int) =~= html@.take(head_close_at as int));
        assert(html@.subrange(head_close_at as int, html.len() as int) =~= html@.skip(head_close_at as int));
        let r = IndexHtmlTemplate { head_prefix, tail, existing_hrefs };
        assert(r@ =~= template_of(index_html@));
        r
    }

    /// The page with the preload tags of `preloads` before `</head>`; unchanged when there
    /// are no preloads or no new tags.
    pub fn render(&self, asset_base: &str, preloads: Option<&ResolvedPreloads>) -> (r: String)
        ensures
            r@ == rendered(self@, asset_base@, preloads_view(preloads)),
    {
        let mut html = copy_string_of(&self.head_prefix);
        match preloads {
            None => {},
            Some(p) => {
                let tags = p.preload_tags(asset_base, &self.existing_hrefs);
                html.append(tags.as_str());
            },
        }
        html.append(self.tail.as_str());
        proof {
            match preloads {
                None => {
                    assert(self.head_prefix@ + Seq::<char>::empty() =~= self.head_prefix@);
                },
                Some(_) => {},
            }
        }
        html
    }
}

fn copy_string_of(s: &String) -> (r: String)
    ensures
        r@ == s@,
{
    crate::text::copy_string(s)
}

/// How a server turns rendered HTML into its response type.
pub trait HtmlResponseBackend {
    type Response;

    fn respond_html(&self, html: String) -> Self::Response;
}

/// Renders the template with the preloads and hands the page to the backend.
pub fn render_html_with_preloads<B: HtmlResponseBackend>(
    backend: &B,
    template: &IndexHtmlTemplate,
    asset_base: &str,
    preloads: Option<&ResolvedPreloads>,
) -> (r: B::Response)
    ensures
        exists|html: String|
            html@ == rendered(template@, asset_base@, preloads_view(preloads))
            && call_ensures(B::respond_html, (backend, html), r),
{
    let html = template.render(asset_base, preloads);
    let r = backend.respond_html(html);
    r
}

/// `head_close(html)` is within `html`; when `html` holds `</head>` in any ASCII case, the
/// first one starts there and none starts before.
proof fn lemma_head_close(html: Seq<char>)
    ensures
        head_close(html) <= html.len(),
        contains_seq(ascii_lower_seq(html), head_close_marker()) ==> occurs_at(ascii_lower_seq(html), head_close_marker(), head_close(html) as int),
        forall|m: int| 0 <= m < head_close(html) ==> !occurs_at(ascii_lower_seq(html), head_close_marker(), m),
{
    lemma_first_occurrence(ascii_lower_seq(html), head_close_marker(), 0);
}

/// Parsing a page and rendering it without preloads gives the page back unchanged.
pub proof fn lemma_render_without_preloads_restores_page(html: Seq<char>, asset_base: Seq<char>)
    ensures
        rendered(template_of(html), asset_base, None) == html,
{
    lemma_head_close(html);
    let k = head_close(html) as int;
    assert(html.take(k) + Seq::<char>::empty() + html.skip(k) =~= html);
}

/// The preload tags are placed before the first `</head>` (in any ASCII case) of the page:
/// the head part holds none, and the rest starts with one when the page has one.
pub proof fn lemma_tags_precede_head_close(html: Seq<char>)
    ensures
        !contains_seq(ascii_lower_seq(template_of(html).head_prefix), head_close_marker()),
        contains_seq(ascii_lower_seq(html), head_close_marker()) ==> ascii_lower_seq(template_of(html).tail).take(7) == head_close_marker(),
{
    lemma_head_close(html);
    let k = head_close(html) as int;
    let low = ascii_lower_seq(html);
    let head_low = ascii_lower_seq(html.take(k));
    assert(head_low =~= low.take(k));
    if contains_seq(head_low, head_close_marker()) {
        let m = choose|m: int| occurs_at(head_low, head_close_marker(), m);
        assert(low.subrange(m, m + 7) =~= head_low.subrange(m, m + 7));
        assert(occurs_at(low, head_close_marker(), m));
    }
    if contains_seq(low, head_close_marker()) {
        assert(ascii_lower_seq(html.skip(k)).take(7) =~= low.subrange(k, k + 7));
    }
}

/// Every tag a render adds is for a URL that the page does not reference yet: preloads whose
/// URLs are all present already leave the page as it renders without preloads.
pub proof fn lemma_present_preloads_add_nothing(t: TemplateView, asset_base: Seq<char>, p: ResolvedView)
    requires
        p.loader.len() > 0 ==> t.existing_hrefs.contains(asset_href_of(asset_base, p.loader)),
        forall|i: int| 0 <= i < p.wasm_chunks.len() ==> t.existing_hrefs.contains(#[trigger] asset_href_of(asset_base, p.wasm_chunks[i])),
    ensures
        rendered(t, asset_base, Some(p)) == rendered(t, asset_base, None),
{
    lemma_wasm_tags_all_present(p.wasm_chunks, asset_base, t.existing_hrefs);
    assert(preload_tags_of(p, asset_base, t.existing_hrefs) =~= Seq::<char>::empty());
}

proof fn lemma_wasm_tags_all_present(chunks: Seq<Seq<char>>, asset_base: Seq<char>, existing: Set<Seq<char>>)
    requires
        forall|i: int| 0 <= i < chunks.len() ==> existing.contains(#[trigger] asset_href_of(asset_base, chunks[i])),
    ensures
        wasm_tags(chunks, asset_base, existing) == Seq::<char>::empty(),
    decreases chunks.len(),
{
    if chunks.len() > 0 {
        let rest = chunks.drop_last();
        assert forall|i: int| 0 <= i < rest.len() implies existing.contains(#[trigger] asset_href_of(asset_base, rest[i])) by {
            assert(rest[i] == chunks[i]);
        }
        lemma_wasm_tags_all_present(rest, asset_base, existing);
        assert(existing.contains(asset_href_of(asset_base, chunks[chunks.len() - 1])));
        assert(wasm_tags(chunks, asset_base, existing) =~= Seq::<char>::empty());
    }
}

/// An occurrence inside `x` is an occurrence inside `a + x + b`.
proof fn lemma_contains_in_middle(a: Seq<char>, x: Seq<char>, b: Seq<char>, n: Seq<char>)
    requires
        contains_seq(x, n),
    ensures
        contains_seq(a + x + b, n),
{
    let i = choose|i: int| occurs_at(x, n, i);
    assert((a + x + b).subrange(a.len() + i, a.len() + i + n.len()) =~= x.subrange(i, i + n.len()));
    assert(occurs_at(a + x + b, n, a.len() + i));
}

/// The WASM tags hold the tag of every file whose URL the page does not reference.
proof fn lemma_wasm_tags_has(chunks: Seq<Seq<char>>, asset_base: Seq<char>, existing: Set<Seq<char>>, w: Seq<char>)
    requires
        chunks.contains(w),
        !existing.contains(asset_href_of(asset_base, w)),
    ensures
        contains_seq(wasm_tags(chunks, asset_base, existing), wasm_preload_tag(asset_href_of(asset_base, w))),
    decreases chunks.len(),
{
    let tag = wasm_preload_tag(asset_href_of(asset_base, w));
    let prev = wasm_tags(chunks.drop_last(), asset_base, existing);
    if chunks.last() == w {
        assert(wasm_tags(chunks, asset_base, existing) == prev + tag);
        assert(contains_seq(tag, tag)) by {
            assert(tag.subrange(0, tag.len() as int) =~= tag);
            assert(occurs_at(tag, tag, 0));
        }
        lemma_contains_in_middle(prev, tag, Seq::<char>::empty(), tag);
        assert(prev + tag + Seq::<char>::empty() =~= prev + tag);
    } else {
        let k = choose|k: int| 0 <= k < chunks.len() && chunks[k] == w;
        assert(chunks.drop_last()[k] == w);
        lemma_wasm_tags_has(chunks.drop_last(), asset_base, existing, w);
        let last = wasm_tags(chunks, asset_base, existing).skip(prev.len() as int);
        assert(wasm_tags(chunks, asset_base, existing) =~= prev + last + Seq::<char>::empty());
        lemma_contains_in_middle(Seq::<char>::empty(), prev, last, tag);
        assert(Seq::<char>::empty() + prev + last =~= prev + last);
    }
}

/// A page rendered with preloads that hold the file `w` carries the preload tag of `w`,
/// unless the page already references its URL.
pub proof fn lemma_rendered_has_wasm_tag(t: TemplateView, asset_base: Seq<char>, r: ResolvedView, w: Seq<char>)
    requires
        r.wasm_chunks.contains(w),
        !t.existing_hrefs.contains(asset_href_of(asset_base, w)),
    ensures
        contains_seq(rendered(t, asset_base, Some(r)), wasm_preload_tag(asset_href_of(asset_base, w))),
{
    let tag = wasm_preload_tag(asset_href_of(asset_base, w));
    let wt = wasm_tags(r.wasm_chunks, asset_base, t.existing_hrefs);
    lemma_wasm_tags_has(r.wasm_chunks, asset_base, t.existing_hrefs, w);
    let loader_part = preload_tags_of(r, asset_base, t.existing_hrefs).take(
        preload_tags_of(r, asset_base, t.existing_hrefs).len() - wt.len(),
    );
    assert(preload_tags_of(r, asset_base, t.existing_hrefs) =~= loader_part + wt);
    lemma_contains_in_middle(loader_part, wt, Seq::<char>::empty(), tag);
    assert(loader_part + wt + Seq::<char>::empty() =~= loader_part + wt);
    lemma_contains_in_middle(t.head_prefix, loader_part + wt, t.tail, tag);
}

// ---------------------------------------------------------------------------
// Rendering an already rendered page

/// Whether the `href` scan of `html` ends outside any quoted value: every quoted value that
/// the scan of [`hrefs_in`] opens also closes within `html`.
pub open spec fn href_scan_closed(html: Seq<char>) -> bool
    decreases html.len(),
{
    match first_occurrence(html, href_marker(), 0) {
        None => true,
        Some(p) => {
            proof {
                lemma_first_occurrence(html, href_marker(), 0);
            }
            let rest = html.skip(p + 5int);
            if rest.len() > 0 && (rest[0] == '\'' || rest[0] == '"') {
                let body = rest.skip(1);
                match first_occurrence(body, seq![rest[0]], 0) {
                    None => false,
                    Some(e) => {
                        proof {
                            lemma_first_occurrence(body, seq![rest[0]], 0);
                        }
                        href_scan_closed(body.skip(e + 1int))
                    },
                }
            } else {
                href_scan_closed(rest)
            }
        },
    }
}

/// The first occurrence at or after `from` is the one at `k` when none comes between.
proof fn lemma_first_occurrence_at(h: Seq<char>, n: Seq<char>, from: nat, k: int)
    requires
        from <= k,
        occurs_at(h, n, k),
        forall|m: int| from <= m < k ==> !occurs_at(h, n, m),
    ensures
        first_occurrence(h, n, from) == Some(k as nat),
{
    lemma_first_occurrence(h, n, from);
    match first_occurrence(h, n, from) {
        Some(j) => {
            if j < k {
                assert(!occurs_at(h, n, j as int));
            } else if j > k {
                assert(!occurs_at(h, n, k));
            }
        },
        None => {
            assert(!occurs_at(h, n, k));
        },
    }
}

/// There is no first occurrence at or after `from` when there is no occurrence there.
proof fn lemma_first_occurrence_none(h: Seq<char>, n: Seq<char>, from: nat)
    requires
        forall|m: int| from <= m ==> !occurs_at(h, n, m),
    ensures
        first_occurrence(h, n, from) is None,
{
    lemma_first_occurrence(h, n, from);
    if let Some(k) = first_occurrence(h, n, from) {
        assert(!occurs_at(h, n, k as int));
    }
}

/// An occurrence that fits inside `a` is one of `a + b`, and back.
proof fn lemma_occurs_in_prefix(a: Seq<char>, b: Seq<char>, n: Seq<char>, m: int)
    requires
        0 <= m,
        m + n.len() <= a.len(),
    ensures
        occurs_at(a + b, n, m) == occurs_at(a, n, m),
{
    assert((a + b).subrange(m, m + n.len()) =~= a.subrange(m, m + n.len()));
}

/// An occurrence that starts inside `b` is one of `a + b`, shifted, and back.
proof fn lemma_occurs_in_suffix(a: Seq<char>, b: Seq<char>, n: Seq<char>, m: int)
    requires
        a.len() <= m,
    ensures
        occurs_at(a + b, n, m) == occurs_at(b, n, m - a.len()),
{
    if m + n.len() <= a.len() + b.len() {
        assert((a + b).subrange(m, m + n.len()) =~= b.subrange(m - a.len(), m - a.len() + n.len()));
    }
}

/// No `href=` spans the end of `a` when what follows starts with `<`.
proof fn lemma_no_marker_across(a: Seq<char>, b: Seq<char>, m: int)
    requires
        b.len() > 0,
        b[0] == '<',
        a.len() - 5 < m < a.len(),
    ensures
        !occurs_at(a + b, href_marker(), m),
{
    if occurs_at(a + b, href_marker(), m) {
        let j = a.len() - m;
        assert((a + b).subrange(m, m + 5)[j] == (a + b)[a.len() as int]);
        assert(href_marker()[j] != '<');
    }
}

/// After a scan that ends outside any quoted value, the `href` values of `a + b` are those
/// of `a` then those of `b`, when `b` starts with `<` (or is empty).
proof fn lemma_hrefs_concat(a: Seq<char>, b: Seq<char>)
    requires
        href_scan_closed(a),
        b.len() == 0 || b[0] == '<',
    ensures
        hrefs_in(a + b) == hrefs_in(a) + hrefs_in(b),
        href_scan_closed(a + b) == href_scan_closed(b),
    decreases a.len(),
{
    let mk = href_marker();
    let ab = a + b;
    lemma_first_occurrence(a, mk, 0);
    match first_occurrence(a, mk, 0) {
        None => {
            assert forall|m: int| 0 <= m < a.len() implies !occurs_at(ab, mk, m) by {
                if m + 5 <= a.len() {
                    lemma_occurs_in_prefix(a, b, mk, m);
                } else if b.len() > 0 {
                    lemma_no_marker_across(a, b, m);
                }
            }
            lemma_first_occurrence(b, mk, 0);
            match first_occurrence(b, mk, 0) {
                None => {
                    assert forall|m: int| 0 <= m implies !occurs_at(ab, mk, m) by {
                        if m >= a.len() {
                            lemma_occurs_in_suffix(a, b, mk, m);
                        }
                    }
                    lemma_first_occurrence_none(ab, mk, 0);
                    assert(hrefs_in(a) + hrefs_in(b) =~= Seq::<Seq<char>>::empty());
                },
                Some(q) => {
                    let k: int = a.len() + q as int;
                    lemma_occurs_in_suffix(a, b, mk, k);
                    assert forall|m: int| 0 <= m < k implies !occurs_at(ab, mk, m) by {
                        if m >= a.len() {
                            lemma_occurs_in_suffix(a, b, mk, m);
                        }
                    }
                    lemma_first_occurrence_at(ab, mk, 0, k);
                    assert(ab.skip(k + 5) =~= b.skip(q + 5int));
                    assert(hrefs_in(a) + hrefs_in(b) =~= hrefs_in(b));
                },
            }
        },
        Some(p) => {
            lemma_occurs_in_prefix(a, b, mk, p as int);
            assert forall|m: int| 0 <= m < p implies !occurs_at(ab, mk, m) by {
                lemma_occurs_in_prefix(a, b, mk, m);
            }
            lemma_first_occurrence_at(ab, mk, 0, p as int);
            let rest_a = a.skip(p + 5int);
            assert(ab.skip(p + 5int) =~= rest_a + b);
            if rest_a.len() == 0 {
                assert(rest_a + b =~= b);
                assert(hrefs_in(rest_a) == Seq::<Seq<char>>::empty());
                assert(href_scan_closed(rest_a));
                assert(hrefs_in(a) + hrefs_in(b) =~= hrefs_in(b));
            } else if rest_a[0] == '\'' || rest_a[0] == '"' {
                let q = seq![rest_a[0]];
                let body_a = rest_a.skip(1);
                assert((rest_a + b).skip(1) =~= body_a + b);
                lemma_first_occurrence(body_a, q, 0);
                let e = first_occurrence(body_a, q, 0)->0;
                lemma_occurs_in_prefix(body_a, b, q, e as int);
                assert forall|m: int| 0 <= m < e implies !occurs_at(body_a + b, q, m) by {
                    lemma_occurs_in_prefix(body_a, b, q, m);
                }
                lemma_first_occurrence_at(body_a + b, q, 0, e as int);
                assert((body_a + b).take(e as int) =~= body_a.take(e as int));
                let next = body_a.skip(e + 1int);
                assert((body_a + b).skip(e + 1int) =~= next + b);
                lemma_hrefs_concat(next, b);
                assert(hrefs_in(a) == seq![body_a.take(e as int)] + hrefs_in(next));
                assert(hrefs_in(ab) == seq![body_a.take(e as int)] + hrefs_in(next + b));
                assert(seq![body_a.take(e as int)] + (hrefs_in(next) + hrefs_in(b))
                    =~= seq![body_a.take(e as int)] + hrefs_in(next) + hrefs_in(b));
            } else {
                assert((rest_a + b)[0] == rest_a[0]);
                lemma_hrefs_concat(rest_a, b);
            }
        },
    }
}

/// A tag `pre + x + post` whose only `href` is the quoted value `x`, as the preload tags are
/// built, holds `x` as its one `href` value and leaves the scan outside any quoted value.
proof fn lemma_tag_hrefs(pre: Seq<char>, x: Seq<char>, post: Seq<char>)
    requires
        pre.len() >= 6,
        pre[0] == '<',
        pre.skip(pre.len() - 6) == seq!['h', 'r', 'e', 'f', '=', '"'],
        forall|m: int| 0 <= m < pre.len() - 6 ==> !occurs_at(pre, href_marker(), m),
        post.len() > 0,
        post[0] == '"',
        !contains_seq(post.skip(1), href_marker()),
        !x.contains('"'),
    ensures
        hrefs_in(pre + x + post) == seq![x],
        href_scan_closed(pre + x + post),
        (pre + x + post)[0] == '<',
{
    let mk = href_marker();
    let t = pre + x + post;
    let q: int = pre.len() - 6;
    assert(t =~= pre + (x + post));
    assert(t.subrange(q, q + 5) =~= mk) by {
        assert(t.subrange(q, q + 5) =~= pre.skip(q).take(5));
    }
    assert forall|m: int| 0 <= m < q implies !occurs_at(t, mk, m) by {
        lemma_occurs_in_prefix(pre, x + post, mk, m);
    }
    lemma_first_occurrence_at(t, mk, 0, q);
    let rest = t.skip(q + 5);
    assert(rest =~= seq!['"'] + x + post) by {
        assert(pre.skip(q + 5) =~= seq!['"']) by {
            assert(pre.skip(q + 5) =~= pre.skip(q).skip(5));
        }
    }
    let quote = seq![rest[0]];
    let body = rest.skip(1);
    assert(body =~= x + post);
    assert(body.subrange(x.len() as int, x.len() + 1int) =~= quote);
    assert forall|m: int| 0 <= m < x.len() implies !occurs_at(body, quote, m) by {
        if occurs_at(body, quote, m) {
            assert(body.subrange(m, m + 1)[0] == body[m]);
            assert(x.contains(x[m]));
        }
    }
    lemma_first_occurrence_at(body, quote, 0, x.len() as int);
    assert(body.take(x.len() as int) =~= x);
    let next = body.skip(x.len() + 1int);
    assert(next =~= post.skip(1));
    assert forall|m: int| 0 <= m implies !occurs_at(next, mk, m) by {
        if occurs_at(next, mk, m) {
            assert(contains_seq(next, mk));
        }
    }
    lemma_first_occurrence_none(next, mk, 0);
    assert(hrefs_in(next) == Seq::<Seq<char>>::empty());
    assert(href_scan_closed(next));
    assert(seq![x] + Seq::<Seq<char>>::empty() =~= seq![x]);
    assert(rest.len() > 0 && rest[0] == '"');
    assert(href_scan_closed(t) == href_scan_closed(next));
}

/// The literal parts of the two preload tags meet the conditions of [`lemma_tag_hrefs`].
proof fn lemma_tag_literals()
    ensures
        ({
            let pre = "<link rel=\"modulepreload\" href=\""@;
            let post = "\">"@;
            &&& pre.len() >= 6
            &&& pre[0] == '<'
            &&& pre.skip(pre.len() - 6) == seq!['h', 'r', 'e', 'f', '=', '"']
            &&& forall|m: int| 0 <= m < pre.len() - 6 ==> !occurs_at(pre, href_marker(), m)
            &&& post.len() > 0
            &&& post[0] == '"'
            &&& !contains_seq(post.skip(1), href_marker())
        }),
        ({
            let pre = "<link rel=\"preload\" href=\""@;
            let post = "\" as=\"fetch\" type=\"application/wasm\" crossorigin>"@;
            &&& pre.len() >= 6
            &&& pre[0] == '<'
            &&& pre.skip(pre.len() - 6) == seq!['h', 'r', 'e', 'f', '=', '"']
            &&& forall|m: int| 0 <= m < pre.len() - 6 ==> !occurs_at(pre, href_marker(), m)
            &&& post.len() > 0
            &&& post[0] == '"'
            &&& !contains_seq(post.skip(1), href_marker())
        }),
{
    reveal_strlit("<link rel=\"modulepreload\" href=\"");
    reveal_strlit("\">");
    reveal_strlit("<link rel=\"preload\" href=\"");
    reveal_strlit("\" as=\"fetch\" type=\"application/wasm\" crossorigin>");
    let mk = href_marker();
    let pre1 = "<link rel=\"modulepreload\" href=\""@;
    let post1 = "\">"@;
    let pre2 = "<link rel=\"preload\" href=\""@;
    let post2 = "\" as=\"fetch\" type=\"application/wasm\" crossorigin>"@;
    assert(pre1.skip(pre1.len() - 6) =~= seq!['h', 'r', 'e', 'f', '=', '"']);
    assert(pre2.skip(pre2.len() - 6) =~= seq!['h', 'r', 'e', 'f', '=', '"']);
    assert forall|m: int| 0 <= m < pre1.len() - 6 implies !occurs_at(pre1, mk, m) by {
        if occurs_at(pre1, mk, m) {
            assert(pre1.subrange(m, m + 5)[0] == pre1[m]);
        }
    }
    assert forall|m: int| 0 <= m < pre2.len() - 6 implies !occurs_at(pre2, mk, m) by {
        if occurs_at(pre2, mk, m) {
            assert(pre2.subrange(m, m + 5)[0] == pre2[m]);
        }
    }
    assert(!contains_seq(post1.skip(1), mk)) by {
        assert forall|m: int| !occurs_at(post1.skip(1), mk, m) by {
            if occurs_at(post1.skip(1), mk, m) {
                assert(post1.skip(1).len() == 1);
            }
        }
    }
    assert(!contains_seq(post2.skip(1), mk)) by {
        let s2 = post2.skip(1);
        assert forall|m: int| !occurs_at(s2, mk, m) by {
            if occurs_at(s2, mk, m) {
                assert(s2.subrange(m, m + 5)[0] == s2[m]);
                assert(s2.subrange(m, m + 5)[4] == s2[m + 4]);
                assert(s2[m] == post2[m + 1]);
                assert(s2[m + 4] == post2[m + 5]);
            }
        }
    }
}

/// The preload tag of the loader at `href` holds `href` as its one `href` value.
proof fn lemma_module_tag_hrefs(href: Seq<char>)
    requires
        !href.contains('"'),
    ensures
        hrefs_in(module_preload_tag(href)) == seq![href],
        href_scan_closed(module_preload_tag(href)),
        module_preload_tag(href)[0] == '<',
{
    lemma_tag_literals();
    lemma_tag_hrefs("<link rel=\"modulepreload\" href=\""@, href, "\">"@);
}

/// The preload tag of a WASM file at `href` holds `href` as its one `href` value.
proof fn lemma_wasm_tag_hrefs(href: Seq<char>)
    requires
        !href.contains('"'),
    ensures
        hrefs_in(wasm_preload_tag(href)) == seq![href],
        href_scan_closed(wasm_preload_tag(href)),
        wasm_preload_tag(href)[0] == '<',
{
    lemma_tag_literals();
    lemma_tag_hrefs("<link rel=\"preload\" href=\""@, href, "\" as=\"fetch\" type=\"application/wasm\" crossorigin>"@);
}

/// The WASM tags leave the scan outside any quoted value, start with `<` when there are any,
/// and hold as `href` value the URL of every file that the page did not reference.
proof fn lemma_wasm_tags_scan(chunks: Seq<Seq<char>>, asset_base: Seq<char>, existing: Set<Seq<char>>)
    requires
        forall|i: int| 0 <= i < chunks.len() ==> !(#[trigger] asset_href_of(asset_base, chunks[i])).contains('"'),
    ensures
        href_scan_closed(wasm_tags(chunks, asset_base, existing)),
        wasm_tags(chunks, asset_base, existing).len() == 0 || wasm_tags(chunks, asset_base, existing)[0] == '<',
        forall|i: int| 0 <= i < chunks.len() && !existing.contains(asset_href_of(asset_base, chunks[i]))
            ==> hrefs_in(wasm_tags(chunks, asset_base, existing)).contains(#[trigger] asset_href_of(asset_base, chunks[i])),
    decreases chunks.len(),
{
    let wt = wasm_tags(chunks, asset_base, existing);
    if chunks.len() == 0 {
        lemma_first_occurrence_none(wt, href_marker(), 0);
    } else {
        let rest = chunks.drop_last();
        assert forall|i: int| 0 <= i < rest.len() implies !(#[trigger] asset_href_of(asset_base, rest[i])).contains('"') by {
            assert(rest[i] == chunks[i]);
        }
        lemma_wasm_tags_scan(rest, asset_base, existing);
        let prev = wasm_tags(rest, asset_base, existing);
        let href = asset_href_of(asset_base, chunks.last());
        assert(!href.contains('"')) by {
            assert(chunks.last() == chunks[chunks.len() - 1]);
        }
        if existing.contains(href) {
            assert(wt =~= prev);
            assert forall|i: int| 0 <= i < chunks.len() && !existing.contains(asset_href_of(asset_base, chunks[i]))
                implies hrefs_in(wt).contains(#[trigger] asset_href_of(asset_base, chunks[i])) by {
                if i < rest.len() {
                    assert(rest[i] == chunks[i]);
                }
            }
        } else {
            let tag = wasm_preload_tag(href);
            assert(wt == prev + tag);
            lemma_wasm_tag_hrefs(href);
            lemma_hrefs_concat(prev, tag);
            if prev.len() > 0 {
                assert(wt[0] == prev[0]);
            }
            assert forall|i: int| 0 <= i < chunks.len() && !existing.contains(asset_href_of(asset_base, chunks[i]))
                implies hrefs_in(wt).contains(#[trigger] asset_href_of(asset_base, chunks[i])) by {
                if i < rest.len() {
                    assert(rest[i] == chunks[i]);
                    let k = choose|k: int| 0 <= k < hrefs_in(prev).len() && hrefs_in(prev)[k] == asset_href_of(asset_base, rest[i]);
                    assert(hrefs_in(wt)[k] == hrefs_in(prev)[k]);
                } else {
                    assert(hrefs_in(wt)[hrefs_in(prev).len() as int] == href);
                }
            }
        }
    }
}

/// The preload tags leave the scan outside any quoted value, start with `<` when there are
/// any, and hold as `href` value every URL they add.
proof fn lemma_preload_tags_scan(p: ResolvedView, asset_base: Seq<char>, existing: Set<Seq<char>>)
    requires
        p.loader.len() > 0 ==> !asset_href_of(asset_base, p.loader).contains('"'),
        forall|i: int| 0 <= i < p.wasm_chunks.len() ==> !(#[trigger] asset_href_of(asset_base, p.wasm_chunks[i])).contains('"'),
    ensures
        href_scan_closed(preload_tags_of(p, asset_base, existing)),
        preload_tags_of(p, asset_base, existing).len() == 0 || preload_tags_of(p, asset_base, existing)[0] == '<',
        p.loader.len() > 0 && !existing.contains(asset_href_of(asset_base, p.loader))
            ==> hrefs_in(preload_tags_of(p, asset_base, existing)).contains(asset_href_of(asset_base, p.loader)),
        forall|i: int| 0 <= i < p.wasm_chunks.len() && !existing.contains(asset_href_of(asset_base, p.wasm_chunks[i]))
            ==> hrefs_in(preload_tags_of(p, asset_base, existing)).contains(#[trigger] asset_href_of(asset_base, p.wasm_chunks[i])),
{
    let lh = asset_href_of(asset_base, p.loader);
    let wt = wasm_tags(p.wasm_chunks, asset_base, existing);
    let tags = preload_tags_of(p, asset_base, existing);
    lemma_wasm_tags_scan(p.wasm_chunks, asset_base, existing);
    if p.loader.len() > 0 && !existing.contains(lh) {
        let lt = module_preload_tag(lh);
        assert(tags == lt + wt);
        lemma_module_tag_hrefs(lh);
        lemma_hrefs_concat(lt, wt);
        assert(tags[0] == lt[0]);
        assert(hrefs_in(tags)[0] == lh);
        assert forall|i: int| 0 <= i < p.wasm_chunks.len() && !existing.contains(asset_href_of(asset_base, p.wasm_chunks[i]))
            implies hrefs_in(tags).contains(#[trigger] asset_href_of(asset_base, p.wasm_chunks[i])) by {
            let w = asset_href_of(asset_base, p.wasm_chunks[i]);
            let k = choose|k: int| 0 <= k < hrefs_in(wt).len() && hrefs_in(wt)[k] == w;
            assert(hrefs_in(tags)[k + 1] == w);
        }
    } else {
        assert(tags =~= wt);
    }
}

/// What follows the first `</head>` starts with `<` (or is empty, when there is none).
proof fn lemma_tail_starts(h: Seq<char>)
    ensures
        template_of(h).tail.len() == 0 || template_of(h).tail[0] == '<',
{
    let low = ascii_lower_seq(h);
    lemma_first_occurrence(low, head_close_marker(), 0);
    match first_occurrence(low, head_close_marker(), 0) {
        Some(k) => {
            assert(low.subrange(k as int, k + 7int)[0] == low[k as int]);
            assert(low[k as int] == ascii_lower(h[k as int]));
            assert(template_of(h).tail[0] == h[k as int]);
        },
        None => {
            assert(template_of(h).tail =~= Seq::<char>::empty());
        },
    }
}

/// Rendering a rendered page again with the same preloads changes nothing: every URL the
/// first render added is referenced by the page it made.
///
/// This holds when the `href` scan of the part before the first `</head>` closes every quoted
/// value it opens (no quoted `href` value spans the place the tags go) and the URLs of the
/// preloads hold no `"`.
pub proof fn lemma_render_twice_adds_nothing(h: Seq<char>, asset_base: Seq<char>, p: ResolvedView)
    requires
        href_scan_closed(template_of(h).head_prefix),
        p.loader.len() > 0 ==> !asset_href_of(asset_base, p.loader).contains('"'),
        forall|i: int| 0 <= i < p.wasm_chunks.len() ==> !(#[trigger] asset_href_of(asset_base, p.wasm_chunks[i])).contains('"'),
    ensures
        rendered(template_of(rendered(template_of(h), asset_base, Some(p))), asset_base, Some(p))
            == rendered(template_of(h), asset_base, Some(p)),
{
    let t = template_of(h);
    let head = t.head_prefix;
    let tail = t.tail;
    let tags = preload_tags_of(p, asset_base, t.existing_hrefs);
    let h2 = rendered(t, asset_base, Some(p));
    lemma_head_close(h);
    assert(head + tail =~= h);
    lemma_tail_starts(h);
    lemma_preload_tags_scan(p, asset_base, t.existing_hrefs);
    lemma_hrefs_concat(head, tail);
    lemma_hrefs_concat(tags, tail);
    assert((tags + tail).len() == 0 || (tags + tail)[0] == '<') by {
        if tags.len() > 0 {
            assert((tags + tail)[0] == tags[0]);
        } else {
            assert(tags + tail =~= tail);
        }
    }
    lemma_hrefs_concat(head, tags + tail);
    assert(h2 =~= head + (tags + tail));
    let hh = hrefs_in(head);
    let ht = hrefs_in(tags);
    let hl = hrefs_in(tail);
    assert(hrefs_in(h2) == hh + (ht + hl));
    assert(hrefs_in(h) == hh + hl);
    let t2 = template_of(h2);
    assert forall|x: Seq<char>| t.existing_hrefs.contains(x) || ht.contains(x) implies #[trigger] t2.existing_hrefs.contains(x) by {
        if t.existing_hrefs.contains(x) {
            let k = choose|k: int| 0 <= k < (hh + hl).len() && (hh + hl)[k] == x;
            if k < hh.len() {
                assert(hrefs_in(h2)[k] == x);
            } else {
                assert(hrefs_in(h2)[k + ht.len()] == x);
            }
        } else {
            let k = choose|k: int| 0 <= k < ht.len() && ht[k] == x;
            assert(hrefs_in(h2)[hh.len() + k] == x);
        }
    }
    assert forall|i: int| 0 <= i < p.wasm_chunks.len() implies t2.existing_hrefs.contains(
        #[trigger] asset_href_of(asset_base, p.wasm_chunks[i]),
    ) by {
        let w = asset_href_of(asset_base, p.wasm_chunks[i]);
        assert(t.existing_hrefs.contains(w) || ht.contains(w));
    }
    if p.loader.len() > 0 {
        let lh = asset_href_of(asset_base, p.loader);
        assert(t.existing_hrefs.contains(lh) || ht.contains(lh));
        assert(t2.existing_hrefs.contains(lh));
    }
    lemma_present_preloads_add_nothing(t2, asset_base, p);
    lemma_render_without_preloads_restores_page(h2, asset_base);
}

} // verus!
