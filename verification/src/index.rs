//! The preload index: registrations resolved through the split manifest, and the lookup of
//! the preloads of a request path.

use crate::error::PreloadError;
use crate::manifest::{prefetch_view, PrefetchEntryView, TrunkWasmSplitManifest};
use crate::order::{
    insert_pos, insert_sorted, insertion_sort, lemma_insert_pos_props, lemma_insertion_sort,
    lemma_lex_strict_order, lemma_set_insert_all, lemma_set_insert_all_append, lex_order, set_insert,
    set_insert_all, sorted_by, strict_order, strictly_increasing,
};
use crate::pattern::{
    fault_reason, parse_pattern, pattern_matches, specificity_of, PatternFault, RoutePattern,
    SegmentView,
};
use crate::registry::{registrations_view, PreloadRegistry, RegistrationView};
use crate::text::{
    chars_of, copy_string, copy_strings, lemma_lex_total, lemma_lex_transitive, lex_less, lex_lt,
    occurs_at_exec, same_chars, strings_view, trim,
};
use vstd::prelude::*;

verus! {

/// The preloads of one request: the loader script, the split keys and the WASM files.
#[derive(Debug, Clone, PartialEq, Eq)]
pub struct ResolvedPreloads {
    pub loader: String,
    pub split_keys: Vec<String>,
    pub wasm_chunks: Vec<String>,
}

/// The mathematical model of [`ResolvedPreloads`].
pub struct ResolvedView {
    pub loader: Seq<char>,
    pub split_keys: Seq<Seq<char>>,
    pub wasm_chunks: Seq<Seq<char>>,
}

impl View for ResolvedPreloads {
    type V = ResolvedView;

    open spec fn view(&self) -> ResolvedView {
        ResolvedView {
            loader: self.loader@,
            split_keys: strings_view(self.split_keys@),
            wasm_chunks: strings_view(self.wasm_chunks@),
        }
    }
}

/// One registration resolved through the manifest.
#[derive(Debug)]
pub struct PreloadIndexEntry {
    pub source_name: String,
    pub pattern: RoutePattern,
    pub specificity: (usize, usize, usize, usize),
    pub split_prefix: String,
    pub split_key: String,
    pub wasm_chunks: Vec<String>,
}

/// The mathematical model of a [`PreloadIndexEntry`].
pub struct EntryView {
    pub source_name: Seq<char>,
    pub pattern: Seq<SegmentView>,
    pub specificity: (usize, usize, usize, usize),
    pub split_prefix: Seq<char>,
    pub split_key: Seq<char>,
    pub wasm_chunks: Seq<Seq<char>>,
}

impl View for PreloadIndexEntry {
    type V = EntryView;

    open spec fn view(&self) -> EntryView {
        EntryView {
            source_name: self.source_name@,
            pattern: self.pattern@,
            specificity: self.specificity,
            split_prefix: self.split_prefix@,
            split_key: self.split_key@,
            wasm_chunks: strings_view(self.wasm_chunks@),
        }
    }
}

impl PreloadIndexEntry {
    /// A copy of this entry.
    pub fn duplicate(&self) -> (r: Self)
        ensures
            r@ == self@,
    {
        PreloadIndexEntry {
            source_name: copy_string(&self.source_name),
            pattern: self.pattern.duplicate(),
            specificity: self.specificity,
            split_prefix: copy_string(&self.split_prefix),
            split_key: copy_string(&self.split_key),
            wasm_chunks: copy_strings(&self.wasm_chunks),
        }
    }
}

impl Clone for PreloadIndexEntry {
    fn clone(&self) -> (r: Self)
        ensures
            r@ == self@,
    {
        self.duplicate()
    }
}

/// The views of a sequence of entries.
pub open spec fn entries_view(v: Seq<PreloadIndexEntry>) -> Seq<EntryView> {
    v.map_values(|e: PreloadIndexEntry| e@)
}

/// The index built from a registry and a manifest.
#[derive(Debug)]
pub struct PreloadIndex {
    loader: String,
    global_entries: Vec<PreloadIndexEntry>,
    entries: Vec<PreloadIndexEntry>,
}

/// The mathematical model of a [`PreloadIndex`].
pub struct IndexView {
    pub loader: Seq<char>,
    pub global_entries: Seq<EntryView>,
    pub entries: Seq<EntryView>,
}

// ---------------------------------------------------------------------------
// Orders

/// `a` is more specific than `b` (the tuple order of Rust, compared field by field).
pub open spec fn specificity_gt(a: (usize, usize, usize, usize), b: (usize, usize, usize, usize)) -> bool {
    ||| a.0 > b.0
    ||| a.0 == b.0 && a.1 > b.1
    ||| a.0 == b.0 && a.1 == b.1 && a.2 > b.2
    ||| a.0 == b.0 && a.1 == b.1 && a.2 == b.2 && a.3 > b.3
}

/// Route entries go before the entries they are more specific than.
pub open spec fn more_specific() -> spec_fn(EntryView, EntryView) -> bool {
    |a: EntryView, b: EntryView| specificity_gt(a.specificity, b.specificity)
}

/// Global entries go in increasing order of source name.
pub open spec fn by_source_name() -> spec_fn(EntryView, EntryView) -> bool {
    |a: EntryView, b: EntryView| lex_lt(a.source_name, b.source_name)
}

proof fn lemma_orders_strict()
    ensures
        strict_order(more_specific()),
        strict_order(by_source_name()),
        strict_order(lex_order()),
{
    assert forall|a: EntryView, b: EntryView| #[trigger] by_source_name()(a, b) implies !by_source_name()(b, a) by {
        lemma_lex_total(a.source_name, b.source_name);
    }
    assert forall|a: EntryView, b: EntryView, c: EntryView|
        #[trigger] by_source_name()(a, b) && #[trigger] by_source_name()(b, c) implies by_source_name()(a, c) by {
        lemma_lex_transitive(a.source_name, b.source_name, c.source_name);
    }
    lemma_lex_strict_order();
}

/// Whether two specificities are equal.
pub fn same_specificity(a: (usize, usize, usize, usize), b: (usize, usize, usize, usize)) -> (r: bool)
    ensures
        r == (a == b),
{
    a.0 == b.0 && a.1 == b.1 && a.2 == b.2 && a.3 == b.3
}

/// Whether specificity `a` is greater than `b`.
pub fn specificity_greater(a: (usize, usize, usize, usize), b: (usize, usize, usize, usize)) -> (r: bool)
    ensures
        r == specificity_gt(a, b),
{
    a.0 > b.0 || (a.0 == b.0 && a.1 > b.1) || (a.0 == b.0 && a.1 == b.1 && a.2 > b.2) || (a.0 == b.0
        && a.1 == b.1 && a.2 == b.2 && a.3 > b.3)
}

impl View for PreloadIndex {
    type V = IndexView;

    closed spec fn view(&self) -> IndexView {
        IndexView {
            loader: self.loader@,
            global_entries: entries_view(self.global_entries@),
            entries: entries_view(self.entries@),
        }
    }
}

impl PreloadIndex {
    /// Route entries are kept from most to least specific.
    #[verifier::type_invariant]
    spec fn entries_ordered(&self) -> bool {
        sorted_by(entries_view(self.entries@), more_specific())
    }
}


// ---------------------------------------------------------------------------
// Building

/// Whether `k` starts with `prefix`.
pub open spec fn starts_with(k: Seq<char>, prefix: Seq<char>) -> bool {
    prefix.len() <= k.len() && k.take(prefix.len() as int) == prefix
}

/// The manifest entries whose key starts with `prefix`, in manifest order.
pub open spec fn keys_with_prefix(m: Seq<PrefetchEntryView>, prefix: Seq<char>) -> Seq<PrefetchEntryView>
    decreases m.len(),
{
    if m.len() == 0 {
        Seq::empty()
    } else {
        let rest = keys_with_prefix(m.drop_last(), prefix);
        if starts_with(m.last().0, prefix) {
            rest.push(m.last())
        } else {
            rest
        }
    }
}

/// Why building an index fails.
pub enum BuildFault {
    MissingKey { prefix: Seq<char>, source_name: Seq<char> },
    AmbiguousKey { prefix: Seq<char>, source_name: Seq<char>, matches: Seq<Seq<char>> },
    InvalidPattern { pattern: Seq<char>, fault: PatternFault },
}

/// Whether the error `e` is the one that reports `f`.
pub open spec fn reports(e: PreloadError, f: BuildFault) -> bool {
    match f {
        BuildFault::MissingKey { prefix, source_name } => e matches PreloadError::MissingManifestKey {
            prefix: p,
            source_name: s,
        } && p@ == prefix && s@ == source_name,
        BuildFault::AmbiguousKey { prefix, source_name, matches } => e matches PreloadError::AmbiguousManifestKey {
            prefix: p,
            source_name: s,
            matches: m,
        } && p@ == prefix && s@ == source_name && strings_view(m@) == matches,
        BuildFault::InvalidPattern { pattern, fault } => e matches PreloadError::InvalidRoutePattern {
            pattern: p,
            reason,
        } && p@ == pattern && reason@ == fault_reason(fault),
    }
}

/// The single manifest entry that `prefix` selects, or the fault.
pub open spec fn manifest_lookup(m: Seq<PrefetchEntryView>, prefix: Seq<char>, source_name: Seq<char>) -> Result<
    PrefetchEntryView,
    BuildFault,
> {
    let ms = keys_with_prefix(m, prefix);
    if ms.len() == 0 {
        Err(BuildFault::MissingKey { prefix, source_name })
    } else if ms.len() > 1 {
        Err(
            BuildFault::AmbiguousKey {
                prefix,
                source_name,
                matches: ms.map_values(|e: PrefetchEntryView| e.0),
            },
        )
    } else {
        Ok(ms[0])
    }
}

/// The entry a registration resolves to, tagged with whether it is a route entry
/// (it has a preload path) rather than a global one; or the fault.
pub open spec fn build_entry(m: Seq<PrefetchEntryView>, r: RegistrationView) -> Result<(bool, EntryView), BuildFault> {
    match manifest_lookup(m, r.split_prefix, r.source_name) {
        Err(f) => Err(f),
        Ok(found) => match r.preload_path {
            None => Ok(
                (
                    false,
                    EntryView {
                        source_name: r.source_name,
                        pattern: Seq::empty(),
                        specificity: (usize::MAX, usize::MAX, usize::MAX, usize::MAX),
                        split_prefix: r.split_prefix,
                        split_key: found.0,
                        wasm_chunks: found.1,
                    },
                ),
            ),
            Some(p) => match parse_pattern(p) {
                Err(fault) => Err(BuildFault::InvalidPattern { pattern: trim(p), fault }),
                Ok(segs) => Ok(
                    (
                        true,
                        EntryView {
                            source_name: r.source_name,
                            pattern: segs,
                            specificity: specificity_of(segs),
                            split_prefix: r.split_prefix,
                            split_key: found.0,
                            wasm_chunks: found.1,
                        },
                    ),
                ),
            },
        },
    }
}

/// The entries of all registrations, in order; or the fault of the first that fails.
pub open spec fn build_entries(m: Seq<PrefetchEntryView>, regs: Seq<RegistrationView>) -> Result<
    Seq<(bool, EntryView)>,
    BuildFault,
>
    decreases regs.len(),
{
    if regs.len() == 0 {
        Ok(Seq::empty())
    } else {
        match build_entry(m, regs[0]) {
            Err(f) => Err(f),
            Ok(x) => match build_entries(m, regs.drop_first()) {
                Err(f) => Err(f),
                Ok(rest) => Ok(seq![x] + rest),
            },
        }
    }
}

/// The entries tagged `routed`, in order.
pub open spec fn tagged(xs: Seq<(bool, EntryView)>, routed: bool) -> Seq<EntryView>
    decreases xs.len(),
{
    if xs.len() == 0 {
        Seq::empty()
    } else {
        let rest = tagged(xs.drop_last(), routed);
        if xs.last().0 == routed {
            rest.push(xs.last().1)
        } else {
            rest
        }
    }
}

/// The index that the built entries form: global entries ordered by source name, route
/// entries from most to least specific, both orders stable.
pub open spec fn index_of(loader: Seq<char>, xs: Seq<(bool, EntryView)>) -> IndexView {
    IndexView {
        loader,
        global_entries: insertion_sort(tagged(xs, false), by_source_name()),
        entries: insertion_sort(tagged(xs, true), more_specific()),
    }
}

/// Looks up the manifest entry whose key starts with `prefix`.
pub(crate) fn resolve_manifest_entry(manifest: &TrunkWasmSplitManifest, prefix: &str, source_name: &str) -> (r: Result<
    ResolvedPreloads,
    PreloadError,
>)
    ensures
        match (r, manifest_lookup(manifest@.entries, prefix@, source_name@)) {
            (Ok(res), Ok(found)) => res@.loader == manifest@.loader && res@.split_keys == seq![found.0]
                && res@.wasm_chunks == found.1,
            (Err(e), Err(f)) => reports(e, f),
            _ => false,
        },
{
    let ghost m = manifest@.entries;
    let pairs = manifest.prefetch_map();
    let prefix_chars = chars_of(prefix);
    let mut found: Vec<usize> = Vec::new();
    let mut i: usize = 0;
    while i < pairs.len()
        invariant
            i <= pairs.len(),
            m == prefetch_view(pairs@),
            prefix_chars@ == prefix@,
            keys_with_prefix(m.take(i as int), prefix@) == found@.map_values(|k: usize| m[k as int]),
            forall|j: int| 0 <= j < found.len() ==> found@[j] < i,
        decreases pairs.len() - i,
    {
        let key = chars_of(pairs[i].0.as_str());
        let starts = occurs_at_exec(&key, &prefix_chars, 0);
        proof {
            assert(m.take(i + 1).drop_last() =~= m.take(i as int));
            assert(m.take(i + 1).last() == m[i as int]);
            assert(key@ == m[i as int].0);
            if prefix_chars.len() <= key.len() {
                assert(key@.take(prefix_chars.len() as int) =~= key@.subrange(0, prefix_chars.len() as int));
            }
        }
        let ghost before = found@;
        if starts {
            found.push(i);
            assert(found@.map_values(|k: usize| m[k as int]) =~= before.map_values(|k: usize| m[k as int]).push(m[i as int]));
        }
        i += 1;
    }
    assert(m.take(pairs.len() as int) =~= m);
    let ghost ms = keys_with_prefix(m, prefix@);
    if found.len() == 0 {
        return Err(PreloadError::MissingManifestKey { prefix: prefix.to_owned(), source_name: source_name.to_owned() });
    }
    if found.len() > 1 {
        let mut keys: Vec<String> = Vec::new();
        let mut j: usize = 0;
        while j < found.len()
            invariant
                j <= found.len(),
                m == prefetch_view(pairs@),
                ms == found@.map_values(|k: usize| m[k as int]),
                forall|t: int| 0 <= t < found.len() ==> found@[t] < pairs.len(),
                strings_view(keys@) == ms.map_values(|e: PrefetchEntryView| e.0).take(j as int),
            decreases found.len() - j,
        {
            let k = copy_string(&pairs[found[j]].0);
            let ghost before = keys@;
            keys.push(k);
            assert(strings_view(keys@) =~= ms.map_values(|e: PrefetchEntryView| e.0).take(j + 1)) by {
                assert(strings_view(keys@) =~= strings_view(before).push(k@));
            }
            j += 1;
        }
        assert(ms.map_values(|e: PrefetchEntryView| e.0).take(found.len() as int) =~= ms.map_values(|e: PrefetchEntryView| e.0));
        return Err(
            PreloadError::AmbiguousManifestKey {
                prefix: prefix.to_owned(),
                source_name: source_name.to_owned(),
                matches: keys,
            },
        );
    }
    let at = found[0];
    let key = copy_string(&pairs[at].0);
    let mut split_keys: Vec<String> = Vec::new();
    split_keys.push(key);
    assert(strings_view(split_keys@) =~= seq![ms[0].0]);
    Ok(
        ResolvedPreloads {
            loader: manifest.loader().to_owned(),
            split_keys,
            wasm_chunks: copy_strings(&pairs[at].1),
        },
    )
}


proof fn lemma_tagged_push(xs: Seq<(bool, EntryView)>, x: (bool, EntryView), tag: bool, before: spec_fn(EntryView, EntryView) -> bool)
    ensures
        insertion_sort(tagged(xs.push(x), tag), before) == if x.0 == tag {
            insert_sorted(insertion_sort(tagged(xs, tag), before), x.1, before)
        } else {
            insertion_sort(tagged(xs, tag), before)
        },
{
    assert(xs.push(x).drop_last() =~= xs);
    if x.0 == tag {
        let t = tagged(xs, tag);
        assert(t.push(x.1).drop_last() =~= t);
    }
}

/// Inserts `e` into `v` after every entry at least as specific.
fn insert_by_specificity(v: &mut Vec<PreloadIndexEntry>, e: PreloadIndexEntry)
    ensures
        entries_view(final(v)@) == insert_sorted(entries_view(old(v)@), e@, more_specific()),
{
    let ghost s = entries_view(v@);
    proof {
        lemma_insert_pos_props(s, e@, more_specific());
    }
    let mut p: usize = 0;
    while p < v.len() && !specificity_greater(e.specificity, v[p].specificity)
        invariant
            p <= v.len(),
            s == entries_view(v@),
            forall|j: int| 0 <= j < p ==> !more_specific()(e@, #[trigger] s[j]),
            insert_pos(s, e@, more_specific()) <= s.len(),
            forall|j: int| 0 <= j < insert_pos(s, e@, more_specific()) ==> !more_specific()(e@, #[trigger] s[j]),
            insert_pos(s, e@, more_specific()) < s.len() ==> more_specific()(e@, s[insert_pos(s, e@, more_specific()) as int]),
        decreases v.len() - p,
    {
        assert(s[p as int].specificity == v@[p as int].specificity);
        p += 1;
    }
    proof {
        if p < v.len() {
            assert(s[p as int].specificity == v@[p as int].specificity);
        }
    }
    assert(p == insert_pos(s, e@, more_specific()));
    let ghost old_v = v@;
    let ghost ev = e@;
    v.insert(p, e);
    assert(entries_view(v@) =~= s.insert(p as int, ev)) by {
        old_v.insert_ensures(p as int, e);
        s.insert_ensures(p as int, ev);
    }
}

/// Inserts `e` into `v` after every entry whose source name does not sort after its own.
fn insert_by_source_name(v: &mut Vec<PreloadIndexEntry>, e: PreloadIndexEntry)
    ensures
        entries_view(final(v)@) == insert_sorted(entries_view(old(v)@), e@, by_source_name()),
{
    let ghost s = entries_view(v@);
    proof {
        lemma_insert_pos_props(s, e@, by_source_name());
    }
    let name = chars_of(e.source_name.as_str());
    let mut p: usize = 0;
    let mut stop = false;
    while p < v.len() && !stop
        invariant
            p <= v.len(),
            s == entries_view(v@),
            name@ == e@.source_name,
            forall|j: int| 0 <= j < p ==> !by_source_name()(e@, #[trigger] s[j]),
            stop ==> p < s.len() && by_source_name()(e@, s[p as int]),
            insert_pos(s, e@, by_source_name()) <= s.len(),
            forall|j: int| 0 <= j < insert_pos(s, e@, by_source_name()) ==> !by_source_name()(e@, #[trigger] s[j]),
            insert_pos(s, e@, by_source_name()) < s.len() ==> by_source_name()(e@, s[insert_pos(s, e@, by_source_name()) as int]),
        decreases v.len() - p, if stop { 0int } else { 1int },
    {
        let other = chars_of(v[p].source_name.as_str());
        assert(other@ == s[p as int].source_name);
        if lex_less(&name, &other) {
            stop = true;
        } else {
            p += 1;
        }
    }
    assert(p == insert_pos(s, e@, by_source_name()));
    let ghost old_v = v@;
    let ghost ev = e@;
    v.insert(p, e);
    assert(entries_view(v@) =~= s.insert(p as int, ev)) by {
        old_v.insert_ensures(p as int, e);
        s.insert_ensures(p as int, ev);
    }
}

impl PreloadIndex {
    /// Resolves every registration through the manifest and builds the index.
    ///
    /// Fails on the first registration, in registry order, whose split prefix selects no
    /// manifest key or several, or whose preload path is not a valid route pattern.
    pub fn from_registry(manifest: TrunkWasmSplitManifest, registry: &PreloadRegistry) -> (r: Result<Self, PreloadError>)
        ensures
            match (r, build_entries(manifest@.entries, registry@)) {
                (Ok(idx), Ok(xs)) => idx@ == index_of(manifest@.loader, xs),
                (Err(e), Err(f)) => reports(e, f),
                _ => false,
            },
    {
        let regs = registry.registrations();
        let ghost m = manifest@.entries;
        let ghost rv = registry@;
        let ghost mut done: Seq<(bool, EntryView)> = Seq::empty();
        let mut globals: Vec<PreloadIndexEntry> = Vec::new();
        let mut routed: Vec<PreloadIndexEntry> = Vec::new();
        let mut i: usize = 0;
        proof {
            lemma_orders_strict();
            assert(rv.skip(0) =~= rv);
            assert(done + Seq::<(bool, EntryView)>::empty() =~= done);
            match build_entries(m, rv) {
                Ok(rest) => { assert(done + rest =~= rest); },
                Err(_) => {},
            }
            assert(entries_view(globals@) =~= Seq::<EntryView>::empty());
            assert(entries_view(routed@) =~= Seq::<EntryView>::empty());
        }
        while i < regs.len()
            invariant
                i <= regs.len(),
                m == manifest@.entries,
                rv == registry@,
                registrations_view(regs@) == rv,
                build_entries(m, rv) == match build_entries(m, rv.skip(i as int)) {
                    Err(f) => Err(f),
                    Ok(rest) => Ok::<Seq<(bool, EntryView)>, BuildFault>(done + rest),
                },
                entries_view(globals@) == insertion_sort(tagged(done, false), by_source_name()),
                entries_view(routed@) == insertion_sort(tagged(done, true), more_specific()),
            decreases regs.len() - i,
        {
            let reg = &regs[i];
            proof {
                assert(reg@ == rv[i as int]);
                assert(rv.skip(i as int)[0] == rv[i as int]);
                assert(rv.skip(i as int).drop_first() =~= rv.skip(i + 1));
            }
            let resolved = match resolve_manifest_entry(&manifest, reg.split_prefix.as_str(), reg.source_name.as_str()) {
                Ok(res) => res,
                Err(e) => {
                    return Err(e);
                },
            };
            let ghost found = manifest_lookup(m, rv[i as int].split_prefix, rv[i as int].source_name)->Ok_0;
            assert(resolved.split_keys@.len() == 1) by {
                assert(strings_view(resolved.split_keys@).len() == 1);
            }
            let split_key = copy_string(&resolved.split_keys[0]);
            assert(split_key@ == found.0) by {
                assert(strings_view(resolved.split_keys@)[0] == resolved.split_keys@[0]@);
            }
            let ghost x: (bool, EntryView);
            match &reg.preload_path {
                Some(path) => {
                    let pattern = match RoutePattern::parse(path.as_str()) {
                        Ok(p) => p,
                        Err(e) => {
                            return Err(e);
                        },
                    };
                    let specificity = pattern.specificity();
                    let entry = PreloadIndexEntry {
                        source_name: copy_string(&reg.source_name),
                        pattern,
                        specificity,
                        split_prefix: copy_string(&reg.split_prefix),
                        split_key,
                        wasm_chunks: resolved.wasm_chunks,
                    };
                    proof {
                        x = (true, entry@);
                        assert(build_entry(m, rv[i as int]) == Ok::<(bool, EntryView), BuildFault>(x));
                        lemma_tagged_push(done, x, true, more_specific());
                        lemma_tagged_push(done, x, false, by_source_name());
                    }
                    insert_by_specificity(&mut routed, entry);
                },
                None => {
                    let entry = PreloadIndexEntry {
                        source_name: copy_string(&reg.source_name),
                        pattern: RoutePattern::root(),
                        specificity: (usize::MAX, usize::MAX, usize::MAX, usize::MAX),
                        split_prefix: copy_string(&reg.split_prefix),
                        split_key,
                        wasm_chunks: resolved.wasm_chunks,
                    };
                    proof {
                        x = (false, entry@);
                        assert(build_entry(m, rv[i as int]) == Ok::<(bool, EntryView), BuildFault>(x));
                        lemma_tagged_push(done, x, true, more_specific());
                        lemma_tagged_push(done, x, false, by_source_name());
                    }
                    insert_by_source_name(&mut globals, entry);
                },
            }
            proof {
                match build_entries(m, rv.skip(i + 1)) {
                    Err(_) => {},
                    Ok(rest) => {
                        assert(done + (seq![x] + rest) =~= done.push(x) + rest);
                    },
                }
                done = done.push(x);
            }
            i += 1;
        }
        proof {
            assert(rv.skip(regs.len() as int) =~= Seq::<RegistrationView>::empty());
            assert(done + Seq::<(bool, EntryView)>::empty() =~= done);
            lemma_insertion_sort(tagged(done, true), more_specific());
        }
        Ok(PreloadIndex { loader: manifest.loader().to_owned(), global_entries: globals, entries: routed })
    }
}


// ---------------------------------------------------------------------------
// Resolving a request path

/// The route entries whose pattern matches `path`, in index order.
pub open spec fn matching(es: Seq<EntryView>, path: Seq<char>) -> Seq<EntryView>
    decreases es.len(),
{
    if es.len() == 0 {
        Seq::empty()
    } else {
        let rest = matching(es.drop_last(), path);
        if pattern_matches(es.last().pattern, path) {
            rest.push(es.last())
        } else {
            rest
        }
    }
}

/// The entries whose specificity is `sp`, in order.
pub open spec fn with_specificity(es: Seq<EntryView>, sp: (usize, usize, usize, usize)) -> Seq<EntryView>
    decreases es.len(),
{
    if es.len() == 0 {
        Seq::empty()
    } else {
        let rest = with_specificity(es.drop_last(), sp);
        if es.last().specificity == sp {
            rest.push(es.last())
        } else {
            rest
        }
    }
}

/// The entries whose preloads a request for `path` gets: every global entry, then the
/// matching route entries that are as specific as the first (most specific) matching one.
pub open spec fn selected(idx: IndexView, path: Seq<char>) -> Seq<EntryView> {
    let ms = matching(idx.entries, path);
    if ms.len() == 0 {
        idx.global_entries
    } else {
        idx.global_entries + with_specificity(ms, ms[0].specificity)
    }
}

/// The split keys of the entries, in order.
pub open spec fn keys_of(es: Seq<EntryView>) -> Seq<Seq<char>> {
    es.map_values(|e: EntryView| e.split_key)
}

/// The WASM files of the entries, entry after entry.
pub open spec fn chunks_of(es: Seq<EntryView>) -> Seq<Seq<char>>
    decreases es.len(),
{
    if es.len() == 0 {
        Seq::empty()
    } else {
        chunks_of(es.drop_last()) + es.last().wasm_chunks
    }
}

/// The preloads of `path`: none when no entry is selected; otherwise the loader, the split
/// keys of the selected entries in sorted order, and their files sorted without repeats.
pub open spec fn resolution(idx: IndexView, path: Seq<char>) -> Option<ResolvedView> {
    let sel = selected(idx, path);
    if sel.len() == 0 {
        None
    } else {
        Some(
            ResolvedView {
                loader: idx.loader,
                split_keys: insertion_sort(keys_of(sel), lex_order()),
                wasm_chunks: set_insert_all(Seq::empty(), chunks_of(sel)),
            },
        )
    }
}

/// Inserts `x` into the sorted `v` after every string that does not sort after it.
fn insert_string_sorted(v: &mut Vec<String>, x: String)
    ensures
        strings_view(final(v)@) == insert_sorted(strings_view(old(v)@), x@, lex_order()),
{
    let ghost s = strings_view(v@);
    proof {
        lemma_insert_pos_props(s, x@, lex_order());
    }
    let xc = chars_of(x.as_str());
    let mut p: usize = 0;
    let mut stop = false;
    while p < v.len() && !stop
        invariant
            p <= v.len(),
            s == strings_view(v@),
            xc@ == x@,
            forall|j: int| 0 <= j < p ==> !lex_order()(x@, #[trigger] s[j]),
            stop ==> p < s.len() && lex_order()(x@, s[p as int]),
            insert_pos(s, x@, lex_order()) <= s.len(),
            forall|j: int| 0 <= j < insert_pos(s, x@, lex_order()) ==> !lex_order()(x@, #[trigger] s[j]),
            insert_pos(s, x@, lex_order()) < s.len() ==> lex_order()(x@, s[insert_pos(s, x@, lex_order()) as int]),
        decreases v.len() - p, if stop { 0int } else { 1int },
    {
        let other = chars_of(v[p].as_str());
        assert(other@ == s[p as int]);
        if lex_less(&xc, &other) {
            stop = true;
        } else {
            p += 1;
        }
    }
    assert(p == insert_pos(s, x@, lex_order()));
    let ghost old_v = v@;
    let ghost xv = x@;
    v.insert(p, x);
    assert(strings_view(v@) =~= s.insert(p as int, xv)) by {
        old_v.insert_ensures(p as int, x);
        s.insert_ensures(p as int, xv);
    }
}

/// Adds `x` to the sorted set `v` unless it is there.
fn set_insert_string(v: &mut Vec<String>, x: &String)
    ensures
        strings_view(final(v)@) == set_insert(strings_view(old(v)@), x@),
{
    let ghost s = strings_view(v@);
    let mut i: usize = 0;
    while i < v.len()
        invariant
            i <= v.len(),
            s == strings_view(v@),
            s == strings_view(old(v)@),
            forall|j: int| 0 <= j < i ==> s[j] != x@,
        decreases v.len() - i,
    {
        if same_chars(v[i].as_str(), x.as_str()) {
            assert(s[i as int] == x@);
            assert(s.contains(x@));
            return;
        }
        i += 1;
    }
    assert(!s.contains(x@));
    insert_string_sorted(v, copy_string(x));
}

/// Adds every file of `files`, in order, to the sorted set `v`.
fn set_insert_strings(v: &mut Vec<String>, files: &Vec<String>)
    ensures
        strings_view(final(v)@) == set_insert_all(strings_view(old(v)@), strings_view(files@)),
{
    let ghost start = strings_view(v@);
    let mut i: usize = 0;
    assert(strings_view(files@).take(0) =~= Seq::<Seq<char>>::empty());
    while i < files.len()
        invariant
            i <= files.len(),
            start == strings_view(old(v)@),
            strings_view(v@) == set_insert_all(start, strings_view(files@).take(i as int)),
        decreases files.len() - i,
    {
        set_insert_string(v, &files[i]);
        assert(strings_view(files@).take(i + 1).drop_last() =~= strings_view(files@).take(i as int));
        i += 1;
    }
    assert(strings_view(files@).take(files.len() as int) =~= strings_view(files@));
}

/// Adds the split key and files of `e` to the accumulated preloads.
fn add_entry(keys: &mut Vec<String>, chunks: &mut Vec<String>, e: &PreloadIndexEntry, Ghost(sel): Ghost<Seq<EntryView>>)
    requires
        strings_view(old(keys)@) == insertion_sort(keys_of(sel), lex_order()),
        strings_view(old(chunks)@) == set_insert_all(Seq::empty(), chunks_of(sel)),
    ensures
        strings_view(final(keys)@) == insertion_sort(keys_of(sel.push(e@)), lex_order()),
        strings_view(final(chunks)@) == set_insert_all(Seq::empty(), chunks_of(sel.push(e@))),
{
    insert_string_sorted(keys, copy_string(&e.split_key));
    set_insert_strings(chunks, &e.wasm_chunks);
    proof {
        assert(keys_of(sel.push(e@)).drop_last() =~= keys_of(sel));
        assert(sel.push(e@).drop_last() =~= sel);
        lemma_set_insert_all_append(Seq::empty(), chunks_of(sel), e@.wasm_chunks);
    }
}

impl PreloadIndex {
    /// The preloads of a request for `path`; `None` when no entry is selected.
    pub fn resolve(&self, path: &str) -> (r: Option<ResolvedPreloads>)
        ensures
            match r {
                None => resolution(self@, path@) is None,
                Some(res) => resolution(self@, path@) == Some(res@),
            },
    {
        let ghost idx = self@;
        let mut keys: Vec<String> = Vec::new();
        let mut chunks: Vec<String> = Vec::new();
        let ghost mut sel: Seq<EntryView> = Seq::empty();
        let mut any = false;
        let mut j: usize = 0;
        proof {
            assert(strings_view(keys@) =~= Seq::<Seq<char>>::empty());
            assert(strings_view(chunks@) =~= Seq::<Seq<char>>::empty());
            assert(idx.global_entries.take(0) =~= sel);
        }
        while j < self.global_entries.len()
            invariant
                j <= self.global_entries.len(),
                idx == self@,
                sel == idx.global_entries.take(j as int),
                any == (sel.len() > 0),
                strings_view(keys@) == insertion_sort(keys_of(sel), lex_order()),
                strings_view(chunks@) == set_insert_all(Seq::empty(), chunks_of(sel)),
            decreases self.global_entries.len() - j,
        {
            add_entry(&mut keys, &mut chunks, &self.global_entries[j], Ghost(sel));
            proof {
                assert(idx.global_entries.take(j + 1) =~= sel.push(self.global_entries@[j as int]@));
                sel = sel.push(self.global_entries@[j as int]@);
            }
            any = true;
            j += 1;
        }
        assert(idx.global_entries.take(self.global_entries.len() as int) =~= idx.global_entries);
        let mut best: Option<(usize, usize, usize, usize)> = None;
        let mut i: usize = 0;
        assert(idx.entries.take(0) =~= Seq::<EntryView>::empty());
        while i < self.entries.len()
            invariant
                i <= self.entries.len(),
                idx == self@,
                any == (sel.len() > 0),
                ({
                    let ms = matching(idx.entries.take(i as int), path@);
                    &&& best == if ms.len() == 0 {
                        None::<(usize, usize, usize, usize)>
                    } else {
                        Some(ms[0].specificity)
                    }
                    &&& sel == if ms.len() == 0 {
                        idx.global_entries
                    } else {
                        idx.global_entries + with_specificity(ms, ms[0].specificity)
                    }
                }),
                strings_view(keys@) == insertion_sort(keys_of(sel), lex_order()),
                strings_view(chunks@) == set_insert_all(Seq::empty(), chunks_of(sel)),
            decreases self.entries.len() - i,
        {
            let entry = &self.entries[i];
            let ghost ms = matching(idx.entries.take(i as int), path@);
            proof {
                assert(idx.entries.take(i + 1).drop_last() =~= idx.entries.take(i as int));
                assert(idx.entries.take(i + 1).last() == entry@);
            }
            if entry.pattern.matches(path) {
                let ghost ms2 = ms.push(entry@);
                assert(matching(idx.entries.take(i + 1), path@) == ms2);
                match best {
                    None => {
                        best = Some(entry.specificity);
                        proof {
                            assert(ms2.drop_last() =~= ms);
                            assert(with_specificity(ms2, entry@.specificity) =~= seq![entry@]) by {
                                assert(ms.len() == 0);
                                assert(with_specificity(ms, entry@.specificity) =~= Seq::<EntryView>::empty());
                            }
                            assert(idx.global_entries + seq![entry@] =~= sel.push(entry@));
                        }
                        add_entry(&mut keys, &mut chunks, entry, Ghost(sel));
                        proof {
                            sel = sel.push(entry@);
                        }
                        any = true;
                    },
                    Some(current) => {
                        proof {
                            assert(ms2[0] == ms[0]);
                            assert(ms2.drop_last() =~= ms);
                        }
                        if same_specificity(entry.specificity, current) {
                            proof {
                                assert((idx.global_entries + with_specificity(ms, ms[0].specificity)).push(entry@)
                                    =~= idx.global_entries + with_specificity(ms2, ms[0].specificity));
                            }
                            add_entry(&mut keys, &mut chunks, entry, Ghost(sel));
                            proof {
                                sel = sel.push(entry@);
                            }
                            any = true;
                        }
                    },
                }
            }
            i += 1;
        }
        assert(idx.entries.take(self.entries.len() as int) =~= idx.entries);
        if !any {
            return None;
        }
        Some(ResolvedPreloads { loader: copy_string(&self.loader), split_keys: keys, wasm_chunks: chunks })
    }

    /// Whether some route entry's pattern matches `path`.
    pub fn has_path_match(&self, path: &str) -> (r: bool)
        ensures
            r == exists|i: int| 0 <= i < self@.entries.len() && pattern_matches(#[trigger] self@.entries[i].pattern, path@),
    {
        let mut i: usize = 0;
        while i < self.entries.len()
            invariant
                i <= self.entries.len(),
                self@.entries.len() == self.entries.len(),
                forall|k: int| 0 <= k < i ==> !pattern_matches(#[trigger] self@.entries[k].pattern, path@),
            decreases self.entries.len() - i,
        {
            assert(self@.entries[i as int] == self.entries@[i as int]@);
            if self.entries[i].pattern.matches(path) {
                assert(pattern_matches(self@.entries[i as int].pattern, path@));
                return true;
            }
            i += 1;
        }
        false
    }

    /// The route entries, from most to least specific.
    pub fn entries(&self) -> (r: &[PreloadIndexEntry])
        ensures
            entries_view(r@) == self@.entries,
            sorted_by(self@.entries, more_specific()),
    {
        proof {
            use_type_invariant(self);
        }
        self.entries.as_slice()
    }

    /// The global entries, ordered by source name.
    pub fn global_entries(&self) -> (r: &[PreloadIndexEntry])
        ensures
            entries_view(r@) == self@.global_entries,
    {
        self.global_entries.as_slice()
    }

    /// The loader script of the manifest the index was built from.
    pub fn loader(&self) -> (r: &str)
        ensures
            r@ == self@.loader,
    {
        self.loader.as_str()
    }
}


// ---------------------------------------------------------------------------
// Laws

proof fn lemma_matching_members(es: Seq<EntryView>, path: Seq<char>)
    ensures
        forall|k: int| 0 <= k < matching(es, path).len() ==> es.contains(#[trigger] matching(es, path)[k])
            && pattern_matches(matching(es, path)[k].pattern, path),
    decreases es.len(),
{
    if es.len() > 0 {
        lemma_matching_members(es.drop_last(), path);
        let rest = matching(es.drop_last(), path);
        assert forall|k: int| 0 <= k < matching(es, path).len() implies es.contains(#[trigger] matching(es, path)[k])
            && pattern_matches(matching(es, path)[k].pattern, path) by {
            if k < rest.len() {
                assert(matching(es, path)[k] == rest[k]);
                let j = choose|j: int| 0 <= j < es.drop_last().len() && es.drop_last()[j] == rest[k];
                assert(es[j] == rest[k]);
            } else {
                assert(matching(es, path)[k] == es.last());
                assert(es[es.len() - 1] == es.last());
            }
        }
    }
}

proof fn lemma_with_specificity_members(es: Seq<EntryView>, sp: (usize, usize, usize, usize))
    ensures
        forall|k: int| 0 <= k < with_specificity(es, sp).len() ==> es.contains(#[trigger] with_specificity(es, sp)[k])
            && with_specificity(es, sp)[k].specificity == sp,
    decreases es.len(),
{
    if es.len() > 0 {
        lemma_with_specificity_members(es.drop_last(), sp);
        let rest = with_specificity(es.drop_last(), sp);
        assert forall|k: int| 0 <= k < with_specificity(es, sp).len() implies es.contains(#[trigger] with_specificity(es, sp)[k])
            && with_specificity(es, sp)[k].specificity == sp by {
            if k < rest.len() {
                assert(with_specificity(es, sp)[k] == rest[k]);
                let j = choose|j: int| 0 <= j < es.drop_last().len() && es.drop_last()[j] == rest[k];
                assert(es[j] == rest[k]);
            } else {
                assert(es[es.len() - 1] == es.last());
            }
        }
    }
}

proof fn lemma_with_specificity_complete(es: Seq<EntryView>, sp: (usize, usize, usize, usize), i: int)
    requires
        0 <= i < es.len(),
        es[i].specificity == sp,
    ensures
        with_specificity(es, sp).contains(es[i]),
    decreases es.len(),
{
    if i < es.len() - 1 {
        lemma_with_specificity_complete(es.drop_last(), sp, i);
        let rest = with_specificity(es.drop_last(), sp);
        let k = choose|k: int| 0 <= k < rest.len() && rest[k] == es.drop_last()[i];
        assert(with_specificity(es, sp)[k] == rest[k]);
    } else {
        let w = with_specificity(es, sp);
        assert(w[w.len() - 1] == es[i]);
    }
}

proof fn lemma_matching_sorted(es: Seq<EntryView>, path: Seq<char>)
    requires
        sorted_by(es, more_specific()),
    ensures
        sorted_by(matching(es, path), more_specific()),
    decreases es.len(),
{
    if es.len() > 0 {
        assert(sorted_by(es.drop_last(), more_specific())) by {
            assert forall|i: int, j: int| 0 <= i < j < es.drop_last().len() implies !more_specific()(
                #[trigger] es.drop_last()[j],
                #[trigger] es.drop_last()[i],
            ) by {
                assert(es.drop_last()[j] == es[j] && es.drop_last()[i] == es[i]);
            }
        }
        lemma_matching_sorted(es.drop_last(), path);
        lemma_matching_members(es.drop_last(), path);
        let rest = matching(es.drop_last(), path);
        let m = matching(es, path);
        assert forall|i: int, j: int| 0 <= i < j < m.len() implies !more_specific()(#[trigger] m[j], #[trigger] m[i]) by {
            if j < rest.len() {
                assert(m[j] == rest[j] && m[i] == rest[i]);
            } else {
                assert(m[j] == es.last());
                assert(m[i] == rest[i]);
                assert(es.drop_last().contains(rest[i]));
                let k = choose|k: int| 0 <= k < es.drop_last().len() && es.drop_last()[k] == rest[i];
                assert(es[k] == rest[i]);
                assert(es[es.len() - 1] == es.last());
            }
        }
    }
}

/// Most specific wins: the route entries a request selects are the matching entries whose
/// specificity is that of the first match, and no matching entry is more specific than it.
/// (Route entries are kept from most to least specific; [`PreloadIndex::entries`] states it.)
pub proof fn lemma_most_specific_matches_selected(idx: IndexView, path: Seq<char>)
    requires
        sorted_by(idx.entries, more_specific()),
    ensures
        ({
            let ms = matching(idx.entries, path);
            ms.len() > 0 ==> {
                &&& forall|k: int| 0 <= k < ms.len() ==> !specificity_gt(#[trigger] ms[k].specificity, ms[0].specificity)
                &&& forall|k: int| 0 <= k < ms.len() && #[trigger] ms[k].specificity == ms[0].specificity
                    ==> with_specificity(ms, ms[0].specificity).contains(ms[k])
                &&& forall|k: int| 0 <= k < with_specificity(ms, ms[0].specificity).len() ==> {
                    let e = #[trigger] with_specificity(ms, ms[0].specificity)[k];
                    &&& e.specificity == ms[0].specificity
                    &&& idx.entries.contains(e)
                    &&& pattern_matches(e.pattern, path)
                }
            }
        }),
{
    let ms = matching(idx.entries, path);
    lemma_matching_sorted(idx.entries, path);
    lemma_matching_members(idx.entries, path);
    if ms.len() > 0 {
        let sp = ms[0].specificity;
        lemma_with_specificity_members(ms, sp);
        assert forall|k: int| 0 <= k < ms.len() implies !specificity_gt(#[trigger] ms[k].specificity, ms[0].specificity) by {
            if k > 0 {
                assert(!more_specific()(ms[k], ms[0]));
            }
        }
        assert forall|k: int| 0 <= k < ms.len() && #[trigger] ms[k].specificity == ms[0].specificity
            implies with_specificity(ms, ms[0].specificity).contains(ms[k]) by {
            lemma_with_specificity_complete(ms, sp, k);
        }
        assert forall|k: int| 0 <= k < with_specificity(ms, sp).len() implies ({
            let e = #[trigger] with_specificity(ms, sp)[k];
            &&& e.specificity == sp
            &&& idx.entries.contains(e)
            &&& pattern_matches(e.pattern, path)
        }) by {
            let e = with_specificity(ms, sp)[k];
            assert(ms.contains(e));
            let j = choose|j: int| 0 <= j < ms.len() && ms[j] == e;
            assert(idx.entries.contains(ms[j]));
        }
    }
}

proof fn lemma_chunks_of_contains(es: Seq<EntryView>, i: int, j: int)
    requires
        0 <= i < es.len(),
        0 <= j < es[i].wasm_chunks.len(),
    ensures
        chunks_of(es).contains(es[i].wasm_chunks[j]),
    decreases es.len(),
{
    let prev = chunks_of(es.drop_last());
    if i < es.len() - 1 {
        lemma_chunks_of_contains(es.drop_last(), i, j);
        let k = choose|k: int| 0 <= k < prev.len() && prev[k] == es.drop_last()[i].wasm_chunks[j];
        assert(chunks_of(es)[k] == prev[k]);
    } else {
        assert(chunks_of(es)[prev.len() + j] == es.last().wasm_chunks[j]);
    }
}

/// The preloads of every request are well formed: the split keys are those of the selected
/// entries, sorted; the files are those of the selected entries, sorted, each once.
pub proof fn lemma_resolution_well_formed(idx: IndexView, path: Seq<char>)
    ensures
        resolution(idx, path) matches Some(r) ==> {
            &&& r.loader == idx.loader
            &&& sorted_by(r.split_keys, lex_order())
            &&& r.split_keys.to_multiset() == keys_of(selected(idx, path)).to_multiset()
            &&& strictly_increasing(r.wasm_chunks)
            &&& r.wasm_chunks.to_set() == chunks_of(selected(idx, path)).to_set()
        },
        resolution(idx, path) is None <==> (idx.global_entries.len() == 0 && matching(idx.entries, path).len() == 0),
{
    let sel = selected(idx, path);
    lemma_orders_strict();
    lemma_insertion_sort(keys_of(sel), lex_order());
    lemma_set_insert_all(Seq::empty(), chunks_of(sel));
    assert(Seq::<Seq<char>>::empty().to_set().union(chunks_of(sel).to_set()) =~= chunks_of(sel).to_set());
    let ms = matching(idx.entries, path);
    if ms.len() > 0 {
        lemma_with_specificity_complete(ms, ms[0].specificity, 0);
        assert(sel.len() > 0);
    }
}

/// Global preloads are on every route: whatever the path, a request gets the split key and
/// every file of each global entry.
pub proof fn lemma_global_preloads_on_every_route(idx: IndexView, path: Seq<char>)
    requires
        idx.global_entries.len() > 0,
    ensures
        resolution(idx, path) matches Some(r) && {
            &&& forall|i: int| 0 <= i < idx.global_entries.len() ==> r.split_keys.contains(#[trigger] idx.global_entries[i].split_key)
            &&& forall|i: int, j: int| 0 <= i < idx.global_entries.len() && 0 <= j < idx.global_entries[i].wasm_chunks.len()
                ==> r.wasm_chunks.contains(#[trigger] idx.global_entries[i].wasm_chunks[j])
        },
{
    broadcast use vstd::seq_lib::to_multiset_contains;

    let sel = selected(idx, path);
    lemma_resolution_well_formed(idx, path);
    let ms = matching(idx.entries, path);
    assert forall|i: int| 0 <= i < idx.global_entries.len() implies sel[i] == idx.global_entries[i] by {
    }
    let r = resolution(idx, path)->0;
    assert forall|i: int| 0 <= i < idx.global_entries.len() implies r.split_keys.contains(#[trigger] idx.global_entries[i].split_key) by {
        assert(keys_of(sel)[i] == idx.global_entries[i].split_key);
        assert(keys_of(sel).contains(idx.global_entries[i].split_key));
        assert(keys_of(sel).to_multiset().count(idx.global_entries[i].split_key) > 0);
        assert(r.split_keys.to_multiset().count(idx.global_entries[i].split_key) > 0);
    }
    assert forall|i: int, j: int| 0 <= i < idx.global_entries.len() && 0 <= j < idx.global_entries[i].wasm_chunks.len()
        implies r.wasm_chunks.contains(#[trigger] idx.global_entries[i].wasm_chunks[j]) by {
        lemma_chunks_of_contains(sel, i, j);
        assert(chunks_of(sel).to_set().contains(idx.global_entries[i].wasm_chunks[j]));
        assert(r.wasm_chunks.to_set().contains(idx.global_entries[i].wasm_chunks[j]));
    }
}

proof fn lemma_matching_same(es: Seq<EntryView>, p1: Seq<char>, p2: Seq<char>)
    requires
        forall|segs: Seq<SegmentView>| pattern_matches(segs, p1) == pattern_matches(segs, p2),
    ensures
        matching(es, p1) == matching(es, p2),
    decreases es.len(),
{
    if es.len() > 0 {
        lemma_matching_same(es.drop_last(), p1, p2);
        assert(pattern_matches(es.last().pattern, p1) == pattern_matches(es.last().pattern, p2));
    }
}

/// Requests are resolved by path alone: a query string does not change the preloads.
pub proof fn lemma_resolution_ignores_query(idx: IndexView, path: Seq<char>, query: Seq<char>)
    requires
        !path.contains('?'),
    ensures
        resolution(idx, path + seq!['?'] + query) == resolution(idx, path),
{
    assert forall|segs: Seq<SegmentView>| pattern_matches(segs, path + seq!['?'] + query) == pattern_matches(segs, path) by {
        crate::pattern::lemma_query_ignored(segs, path, query);
    }
    lemma_matching_same(idx.entries, path + seq!['?'] + query, path);
}

/// The index built from a registry keeps route entries from most to least specific and global
/// entries in source-name order, each a permutation of the registrations of its kind.
pub proof fn lemma_index_orders(loader: Seq<char>, xs: Seq<(bool, EntryView)>)
    ensures
        sorted_by(index_of(loader, xs).entries, more_specific()),
        index_of(loader, xs).entries.to_multiset() == tagged(xs, true).to_multiset(),
        sorted_by(index_of(loader, xs).global_entries, by_source_name()),
        index_of(loader, xs).global_entries.to_multiset() == tagged(xs, false).to_multiset(),
{
    lemma_orders_strict();
    lemma_insertion_sort(tagged(xs, true), more_specific());
    lemma_insertion_sort(tagged(xs, false), by_source_name());
}

/// One split point under several preload paths: registrations with the same split prefix
/// resolve to the same split key and files, whatever their paths.
pub proof fn lemma_same_prefix_same_split(m: Seq<PrefetchEntryView>, a: RegistrationView, b: RegistrationView)
    requires
        a.split_prefix == b.split_prefix,
        build_entry(m, a) is Ok,
        build_entry(m, b) is Ok,
    ensures
        build_entry(m, a)->Ok_0.1.split_key == build_entry(m, b)->Ok_0.1.split_key,
        build_entry(m, a)->Ok_0.1.wasm_chunks == build_entry(m, b)->Ok_0.1.wasm_chunks,
{
}

/// The specificity order is a strict total order.
pub proof fn lemma_specificity_order(a: (usize, usize, usize, usize), b: (usize, usize, usize, usize), c: (usize, usize, usize, usize))
    ensures
        !specificity_gt(a, a),
        a != b ==> specificity_gt(a, b) || specificity_gt(b, a),
        specificity_gt(a, b) && specificity_gt(b, c) ==> specificity_gt(a, c),
{
}

/// Static segments and parameters make a pattern more specific, optional parameters and
/// splats less: inserting a segment anywhere into a pattern ranks the result above the
/// pattern for a static segment or a parameter, and below it for an optional parameter or a
/// splat (so `/files` ranks above `/files/*rest`, and `/users/:id` above `/users/:id?`).
pub proof fn lemma_segment_kind_ranks(a: Seq<SegmentView>, s: SegmentView, b: Seq<SegmentView>)
    requires
        a.len() + b.len() + 1 <= usize::MAX,
    ensures
        (s is Static || s is Param) ==> specificity_gt(specificity_of(a + seq![s] + b), specificity_of(a + b)),
        (s is OptionalParam || s is Splat) ==> specificity_gt(specificity_of(a + b), specificity_of(a + seq![s] + b)),
{
    crate::pattern::lemma_specificity_concat(a + seq![s], b);
    crate::pattern::lemma_specificity_concat(a, seq![s]);
    crate::pattern::lemma_specificity_concat(a, b);
    crate::pattern::lemma_specificity_single(s);
}

proof fn lemma_matching_complete(es: Seq<EntryView>, path: Seq<char>, i: int)
    requires
        0 <= i < es.len(),
        pattern_matches(es[i].pattern, path),
    ensures
        matching(es, path).contains(es[i]),
    decreases es.len(),
{
    if i < es.len() - 1 {
        lemma_matching_complete(es.drop_last(), path, i);
        let rest = matching(es.drop_last(), path);
        let k = choose|k: int| 0 <= k < rest.len() && rest[k] == es.drop_last()[i];
        assert(matching(es, path)[k] == rest[k]);
    } else {
        let m = matching(es, path);
        assert(m[m.len() - 1] == es[i]);
    }
}

/// A less specific route never wins over a more specific one: when two route entries match
/// a path and the first is more specific, no entry selected for the path is as specific as
/// the second.
pub proof fn lemma_less_specific_match_not_selected(idx: IndexView, path: Seq<char>, i: int, j: int)
    requires
        sorted_by(idx.entries, more_specific()),
        0 <= i < idx.entries.len(),
        0 <= j < idx.entries.len(),
        pattern_matches(idx.entries[i].pattern, path),
        pattern_matches(idx.entries[j].pattern, path),
        specificity_gt(idx.entries[i].specificity, idx.entries[j].specificity),
    ensures
        ({
            let ms = matching(idx.entries, path);
            &&& ms.len() > 0
            &&& selected(idx, path) == idx.global_entries + with_specificity(ms, ms[0].specificity)
            &&& forall|k: int| 0 <= k < with_specificity(ms, ms[0].specificity).len()
                ==> (#[trigger] with_specificity(ms, ms[0].specificity)[k]).specificity != idx.entries[j].specificity
        }),
{
    let ms = matching(idx.entries, path);
    lemma_matching_complete(idx.entries, path, i);
    lemma_most_specific_matches_selected(idx, path);
    let ki = choose|k: int| 0 <= k < ms.len() && ms[k] == idx.entries[i];
    assert(!specificity_gt(ms[ki].specificity, ms[0].specificity));
    let top = ms[0].specificity;
    let si = idx.entries[i].specificity;
    let sj = idx.entries[j].specificity;
    lemma_specificity_order(top, si, sj);
    lemma_specificity_order(si, top, sj);
    assert(specificity_gt(top, sj));
    lemma_specificity_order(top, sj, top);
    lemma_with_specificity_members(ms, top);
}

/// Whether `k` begins with the characters of `prefix`, one by one.
pub open spec fn begins_with(k: Seq<char>, prefix: Seq<char>) -> bool {
    prefix.len() <= k.len() && forall|j: int| 0 <= j < prefix.len() ==> k[j] == prefix[j]
}

/// The manifest entries a split prefix selects are exactly those whose key begins with the
/// prefix, each taken from the manifest, in manifest order: a key that only contains the
/// prefix elsewhere is not selected.
pub proof fn lemma_keys_with_prefix_exact(m: Seq<PrefetchEntryView>, prefix: Seq<char>)
    ensures
        forall|k: int| 0 <= k < keys_with_prefix(m, prefix).len() ==> begins_with(
            #[trigger] keys_with_prefix(m, prefix)[k].0,
            prefix,
        ) && m.contains(keys_with_prefix(m, prefix)[k]),
        forall|i: int| 0 <= i < m.len() && begins_with(#[trigger] m[i].0, prefix) ==> keys_with_prefix(
            m,
            prefix,
        ).contains(m[i]),
    decreases m.len(),
{
    if m.len() > 0 {
        let rest = m.drop_last();
        lemma_keys_with_prefix_exact(rest, prefix);
        let kw = keys_with_prefix(m, prefix);
        let kr = keys_with_prefix(rest, prefix);
        let last = m.last();
        assert(starts_with(last.0, prefix) <==> begins_with(last.0, prefix)) by {
            if begins_with(last.0, prefix) {
                assert(last.0.take(prefix.len() as int) =~= prefix);
            }
            if starts_with(last.0, prefix) {
                assert forall|j: int| 0 <= j < prefix.len() implies last.0[j] == prefix[j] by {
                    assert(last.0.take(prefix.len() as int)[j] == last.0[j]);
                }
            }
        }
        assert forall|k: int| 0 <= k < kw.len() implies begins_with(#[trigger] kw[k].0, prefix) && m.contains(kw[k]) by {
            if k < kr.len() {
                assert(kw[k] == kr[k]);
                assert(begins_with(kr[k].0, prefix) && rest.contains(kr[k]));
                let t = choose|t: int| 0 <= t < rest.len() && rest[t] == kr[k];
                assert(m[t] == rest[t]);
            } else {
                assert(kw[k] == last);
                assert(m[m.len() - 1] == last);
            }
        }
        assert forall|i: int| 0 <= i < m.len() && begins_with(#[trigger] m[i].0, prefix) implies kw.contains(m[i]) by {
            if i < m.len() - 1 {
                assert(rest[i] == m[i]);
                let t = choose|t: int| 0 <= t < kr.len() && kr[t] == rest[i];
                assert(kw[t] == kr[t]);
            } else {
                assert(m[i] == last);
                assert(kw[kw.len() - 1] == last);
            }
        }
    }
}

} // verus!
