//! Trunk's split manifest: the loader script and, per split key, the files it needs.

use crate::order::{insert_pos, insert_sorted, lemma_insert_pos_props, lemma_insert_sorted, sorted_by, strict_order};
use crate::text::{chars_of, lemma_lex_total, lemma_lex_transitive, lex_less, lex_lt, same_chars, strings_view};
use vstd::prelude::*;

verus! {

/// The split manifest that Trunk writes as `__wasm_split_manifest-*.json`.
///
/// `prefetch_map` maps split keys to the WASM files they need; it holds each key once,
/// in increasing key order, as the map the manifest describes.
#[derive(Debug, PartialEq, Eq)]
pub struct TrunkWasmSplitManifest {
    loader: String,
    prefetch_map: Vec<(String, Vec<String>)>,
}

/// The mathematical model of a [`TrunkWasmSplitManifest`]: the loader and the entries.
pub struct ManifestView {
    pub loader: Seq<char>,
    pub entries: Seq<PrefetchEntryView>,
}

/// One manifest entry: a split key and its files.
pub type PrefetchEntryView = (Seq<char>, Seq<Seq<char>>);

/// The views of the manifest entries.
pub open spec fn prefetch_view(v: Seq<(String, Vec<String>)>) -> Seq<PrefetchEntryView> {
    v.map_values(|e: (String, Vec<String>)| (e.0@, strings_view(e.1@)))
}

/// Manifest entries ordered by key.
pub open spec fn key_before(a: PrefetchEntryView, b: PrefetchEntryView) -> bool {
    lex_lt(a.0, b.0)
}

/// [`key_before`] as a relation.
pub open spec fn key_order() -> spec_fn(PrefetchEntryView, PrefetchEntryView) -> bool {
    |a: PrefetchEntryView, b: PrefetchEntryView| key_before(a, b)
}

/// The keys of the entries increase strictly.
pub open spec fn keys_increasing(s: Seq<PrefetchEntryView>) -> bool {
    forall|i: int, j: int| 0 <= i < j < s.len() ==> lex_lt(#[trigger] s[i].0, #[trigger] s[j].0)
}

/// Index of the entry with key `k`, if any.
pub open spec fn key_index(s: Seq<PrefetchEntryView>, k: Seq<char>) -> Option<int> {
    if exists|i: int| 0 <= i < s.len() && #[trigger] s[i].0 == k {
        Some(choose|i: int| 0 <= i < s.len() && #[trigger] s[i].0 == k)
    } else {
        None
    }
}

/// The entries after mapping `k` to `files`: the entry for `k` is replaced, or a new one
/// is placed in key order.
pub open spec fn map_insert(s: Seq<PrefetchEntryView>, k: Seq<char>, files: Seq<Seq<char>>) -> Seq<PrefetchEntryView> {
    match key_index(s, k) {
        Some(i) => s.update(i, (k, files)),
        None => insert_sorted(s, (k, files), key_order()),
    }
}

/// Every entry of `es` mapped in turn by [`map_insert`], starting from no entries.
pub open spec fn map_from_entries(es: Seq<PrefetchEntryView>) -> Seq<PrefetchEntryView>
    decreases es.len(),
{
    if es.len() == 0 {
        Seq::empty()
    } else {
        let prev = map_from_entries(es.drop_last());
        map_insert(prev, es.last().0, es.last().1)
    }
}

/// The map the entries describe: each key to its files.
pub open spec fn entries_map(s: Seq<PrefetchEntryView>) -> Map<Seq<char>, Seq<Seq<char>>> {
    Map::new(|k: Seq<char>| key_index(s, k) is Some, |k: Seq<char>| s[key_index(s, k)->0].1)
}

/// Whether `n` is the file name of a split manifest: `__wasm_split_manifest*.json`.
pub open spec fn is_manifest_file_name(n: Seq<char>) -> bool {
    let head = "__wasm_split_manifest"@;
    let tail = ".json"@;
    &&& head.len() <= n.len()
    &&& n.take(head.len() as int) == head
    &&& tail.len() <= n.len()
    &&& n.skip(n.len() - tail.len()) == tail
}

/// Which directory entry holds the split manifest.
#[derive(Debug, Clone, Copy, PartialEq, Eq)]
pub enum ManifestFileChoice {
    /// Exactly one name is a manifest name; this is its index.
    Found(usize),
    /// No name is a manifest name.
    Missing,
    /// Several names are manifest names.
    Multiple,
}

/// The number of names in `names` that are manifest names.
pub open spec fn count_manifest_names(names: Seq<Seq<char>>) -> nat
    decreases names.len(),
{
    if names.len() == 0 {
        0
    } else {
        count_manifest_names(names.drop_last()) + if is_manifest_file_name(names.last()) {
            1nat
        } else {
            0nat
        }
    }
}

proof fn lemma_key_order()
    ensures
        strict_order(key_order()),
{
    assert forall|a: PrefetchEntryView, b: PrefetchEntryView| key_before(a, b) implies !key_before(b, a) by {
        lemma_lex_total(a.0, b.0);
    }
    assert forall|a: PrefetchEntryView, b: PrefetchEntryView, c: PrefetchEntryView|
        key_before(a, b) && key_before(b, c) implies key_before(a, c) by {
        lemma_lex_transitive(a.0, b.0, c.0);
    }
}

/// Mapping a key keeps the keys strictly increasing.
pub proof fn lemma_map_insert_keeps_order(s: Seq<PrefetchEntryView>, k: Seq<char>, files: Seq<Seq<char>>)
    requires
        keys_increasing(s),
    ensures
        keys_increasing(map_insert(s, k, files)),
{
    let before = key_order();
    match key_index(s, k) {
        Some(i) => {
            let r = s.update(i, (k, files));
            assert forall|a: int, b: int| 0 <= a < b < r.len() implies lex_lt(#[trigger] r[a].0, #[trigger] r[b].0) by {
                assert(r[a].0 == s[a].0);
                assert(r[b].0 == s[b].0);
            }
        },
        None => {
            lemma_key_order();
            assert(sorted_by(s, before)) by {
                assert forall|a: int, b: int| 0 <= a < b < s.len() implies !before(#[trigger] s[b], #[trigger] s[a]) by {
                    lemma_lex_total(s[a].0, s[b].0);
                }
            }
            lemma_insert_sorted(s, (k, files), before);
            let r = insert_sorted(s, (k, files), before);
            let p = insert_pos(s, (k, files), before) as int;
            s.insert_ensures(p, (k, files));
            assert forall|a: int, b: int| 0 <= a < b < r.len() implies lex_lt(#[trigger] r[a].0, #[trigger] r[b].0) by {
                lemma_lex_total(r[a].0, r[b].0);
                assert(!before(r[b], r[a]));
                if r[a].0 == r[b].0 {
                    if a == p {
                        assert(r[b] == s[b - 1]);
                        assert(s[b - 1].0 == k);
                    } else if b == p {
                        assert(r[a] == s[a]);
                        assert(s[a].0 == k);
                    } else if a < p && b < p {
                    } else if a < p {
                        assert(r[b] == s[b - 1]);
                    } else {
                        assert(r[b] == s[b - 1]);
                        assert(r[a] == s[a - 1]);
                    }
                }
            }
        },
    }
}

impl View for TrunkWasmSplitManifest {
    type V = ManifestView;

    closed spec fn view(&self) -> ManifestView {
        ManifestView { loader: self.loader@, entries: prefetch_view(self.prefetch_map@) }
    }
}

impl Clone for TrunkWasmSplitManifest {
    fn clone(&self) -> (r: Self)
        ensures
            r@ == self@,
    {
        proof {
            use_type_invariant(self);
        }
        let mut entries: Vec<(String, Vec<String>)> = Vec::new();
        let mut i: usize = 0;
        while i < self.prefetch_map.len()
            invariant
                i <= self.prefetch_map.len(),
                prefetch_view(entries@) == prefetch_view(self.prefetch_map@).take(i as int),
            decreases self.prefetch_map.len() - i,
        {
            let pair = (crate::text::copy_string(&self.prefetch_map[i].0), crate::text::copy_strings(&self.prefetch_map[i].1));
            let ghost before = entries@;
            entries.push(pair);
            assert(prefetch_view(entries@) =~= prefetch_view(self.prefetch_map@).take(i + 1)) by {
                assert(prefetch_view(entries@) =~= prefetch_view(before).push(prefetch_view(self.prefetch_map@)[i as int]));
            }
            i += 1;
        }
        assert(prefetch_view(self.prefetch_map@).take(self.prefetch_map.len() as int) =~= prefetch_view(self.prefetch_map@));
        TrunkWasmSplitManifest { loader: crate::text::copy_string(&self.loader), prefetch_map: entries }
    }
}

impl TrunkWasmSplitManifest {
    /// The entries are kept in strictly increasing key order, so each key occurs once.
    #[verifier::type_invariant]
    spec fn keys_in_order(&self) -> bool {
        keys_increasing(prefetch_view(self.prefetch_map@))
    }

    /// A manifest with the given loader and no entries.
    pub fn new(loader: String) -> (r: Self)
        ensures
            r@.loader == loader@,
            r@.entries == Seq::<PrefetchEntryView>::empty(),
    {
        let r = TrunkWasmSplitManifest { loader, prefetch_map: Vec::new() };
        assert(prefetch_view(r.prefetch_map@) =~= Seq::<PrefetchEntryView>::empty());
        r
    }

    /// A manifest with the given loader whose map holds `entries`, a later entry for a key
    /// replacing an earlier one (as a map built from a list of pairs).
    pub fn from_entries(loader: String, entries: Vec<(String, Vec<String>)>) -> (r: Self)
        ensures
            r@.loader == loader@,
            r@.entries == map_from_entries(prefetch_view(entries@)),
    {
        let ghost all = prefetch_view(entries@);
        let ghost ld = loader@;
        let mut m = Self::new(loader);
        let mut i: usize = 0;
        assert(all.take(0) =~= Seq::<PrefetchEntryView>::empty());
        while i < entries.len()
            invariant
                i <= entries.len(),
                all == prefetch_view(entries@),
                m@.entries == map_from_entries(all.take(i as int)),
                m@.loader == ld,
            decreases entries.len() - i,
        {
            let k = crate::text::copy_string(&entries[i].0);
            let files = crate::text::copy_strings(&entries[i].1);
            assert(all[i as int] == (k@, strings_view(files@)));
            assert(all.take(i + 1).drop_last() =~= all.take(i as int));
            m.insert(k, files);
            i += 1;
        }
        assert(all.take(entries.len() as int) =~= all);
        m
    }

    /// Maps `key` to `files`, replacing the files of an entry with that key.
    pub fn insert(&mut self, key: String, files: Vec<String>)
        ensures
            final(self)@.loader == old(self)@.loader,
            final(self)@.entries == map_insert(old(self)@.entries, key@, strings_view(files@)),
    {
        proof {
            use_type_invariant(&*self);
        }
        let mut entries: Vec<(String, Vec<String>)> = Vec::new();
        assert(prefetch_view(entries@) =~= Seq::<PrefetchEntryView>::empty());
        std::mem::swap(&mut entries, &mut self.prefetch_map);
        insert_entry(&mut entries, key, files);
        self.prefetch_map = entries;
    }

    /// The loader script.
    pub fn loader(&self) -> (r: &str)
        ensures
            r@ == self@.loader,
    {
        self.loader.as_str()
    }

    /// The entries, each split key with its files, in strictly increasing key order.
    pub fn prefetch_map(&self) -> (r: &Vec<(String, Vec<String>)>)
        ensures
            prefetch_view(r@) == self@.entries,
            keys_increasing(self@.entries),
    {
        proof {
            use_type_invariant(self);
        }
        &self.prefetch_map
    }
}

/// Maps `key` to `files` in sorted entries, replacing the files of an entry with that key.
fn insert_entry(v: &mut Vec<(String, Vec<String>)>, key: String, files: Vec<String>)
    requires
        keys_increasing(prefetch_view(old(v)@)),
    ensures
        prefetch_view(final(v)@) == map_insert(prefetch_view(old(v)@), key@, strings_view(files@)),
        keys_increasing(prefetch_view(final(v)@)),
{
    let ghost s = prefetch_view(v@);
    let ghost entry = (key@, strings_view(files@));
    proof {
        lemma_map_insert_keeps_order(s, key@, strings_view(files@));
    }
    let mut i: usize = 0;
    while i < v.len()
        invariant
            i <= v.len(),
            s == prefetch_view(v@),
            keys_increasing(s),
            s == prefetch_view(old(v)@),
            entry == (key@, strings_view(files@)),
            forall|j: int| 0 <= j < i ==> s[j].0 != key@,
        decreases v.len() - i,
    {
        if same_chars(v[i].0.as_str(), key.as_str()) {
            proof {
                assert(s[i as int].0 == key@);
                let j = key_index(s, key@)->0;
                assert(s[j].0 == key@);
                if j != i {
                    if j < i {
                        assert(lex_lt(s[j].0, s[i as int].0));
                    } else {
                        assert(lex_lt(s[i as int].0, s[j].0));
                    }
                    crate::text::lemma_lex_irreflexive(key@);
                }
                assert(key_index(s, key@) == Some(i as int));
            }
            let ghost old_map = v@;
            let pair = (key, files);
            assert(pair.0@ == entry.0 && strings_view(pair.1@) == entry.1);
            v.set(i, pair);
            assert(v@ == old_map.update(i as int, pair));
            assert(prefetch_view(v@) =~= s.update(i as int, entry));
            return;
        }
        i += 1;
    }
    assert(key_index(s, key@) is None);
    let key_chars = chars_of(key.as_str());
    let ghost before = key_order();
    proof {
        lemma_insert_pos_props(s, entry, before);
    }
    let mut p: usize = 0;
    let mut stop = false;
    while p < v.len() && !stop
        invariant
            p <= v.len(),
            key_chars@ == key@,
            s == prefetch_view(v@),
            entry == (key@, strings_view(files@)),
            before == key_order(),
            forall|j: int| 0 <= j < p ==> !before(entry, #[trigger] s[j]),
            stop ==> p < s.len() && before(entry, s[p as int]),
        decreases v.len() - p, if stop { 0int } else { 1int },
    {
        let c = chars_of(v[p].0.as_str());
        assert(c@ == s[p as int].0);
        if lex_less(&key_chars, &c) {
            stop = true;
        } else {
            p += 1;
        }
    }
    assert(p == insert_pos(s, entry, before));
    let ghost old_map = v@;
    let pair = (key, files);
    assert(pair.0@ == entry.0 && strings_view(pair.1@) == entry.1);
    v.insert(p, pair);
    assert(prefetch_view(v@) =~= s.insert(p as int, entry)) by {
        old_map.insert_ensures(p as int, pair);
        s.insert_ensures(p as int, entry);
    }
}

/// Chooses the split manifest among the file names of a dist directory.
pub fn choose_manifest_file(names: &Vec<String>) -> (r: ManifestFileChoice)
    ensures
        match r {
            ManifestFileChoice::Found(i) => i < names.len() && is_manifest_file_name(names@[i as int]@)
                && count_manifest_names(strings_view(names@)) == 1,
            ManifestFileChoice::Missing => count_manifest_names(strings_view(names@)) == 0,
            ManifestFileChoice::Multiple => count_manifest_names(strings_view(names@)) > 1,
        },
{
    let head = chars_of("__wasm_split_manifest");
    let tail = chars_of(".json");
    let mut found: Option<usize> = None;
    let mut count: usize = 0;
    let mut i: usize = 0;
    while i < names.len()
        invariant
            i <= names.len(),
            head@ == "__wasm_split_manifest"@,
            tail@ == ".json"@,
            count == count_manifest_names(strings_view(names@).take(i as int)),
            count <= 1,
            count == 0 <==> found is None,
            found matches Some(k) ==> k < i && is_manifest_file_name(names@[k as int]@),
        decreases names.len() - i,
    {
        assert(strings_view(names@).take(i + 1).drop_last() =~= strings_view(names@).take(i as int));
        assert(strings_view(names@).take(i + 1).last() == names@[i as int]@);
        let name = chars_of(names[i].as_str());
        let starts = head.len() <= name.len() && crate::text::occurs_at_exec(&name, &head, 0);
        let ends = tail.len() <= name.len() && crate::text::occurs_at_exec(&name, &tail, name.len() - tail.len());
        proof {
            assert(name@.take(head.len() as int) =~= name@.subrange(0, head.len() as int));
            if tail.len() <= name.len() {
                assert(name@.skip(name.len() - tail.len()) =~= name@.subrange(name.len() - tail.len(), name.len() as int));
            }
        }
        if starts && ends {
            if count == 1 {
                proof {
                    lemma_count_monotone(strings_view(names@), i + 1);
                }
                return ManifestFileChoice::Multiple;
            }
            count = 1;
            found = Some(i);
        }
        i += 1;
    }
    assert(strings_view(names@).take(names.len() as int) =~= strings_view(names@));
    match found {
        Some(k) => ManifestFileChoice::Found(k),
        None => ManifestFileChoice::Missing,
    }
}

proof fn lemma_count_monotone(names: Seq<Seq<char>>, n: int)
    requires
        0 <= n <= names.len(),
    ensures
        count_manifest_names(names.take(n)) <= count_manifest_names(names),
    decreases names.len(),
{
    if n < names.len() {
        lemma_count_monotone(names.drop_last(), n);
        assert(names.drop_last().take(n) =~= names.take(n));
    } else {
        assert(names.take(n) =~= names);
    }
}

/// With increasing keys, an entry is found by its key alone.
proof fn lemma_key_unique(s: Seq<PrefetchEntryView>, a: int, b: int)
    requires
        keys_increasing(s),
        0 <= a < s.len(),
        0 <= b < s.len(),
        s[a].0 == s[b].0,
    ensures
        a == b,
{
    if a < b {
        assert(lex_lt(s[a].0, s[b].0));
        crate::text::lemma_lex_irreflexive(s[a].0);
    } else if b < a {
        assert(lex_lt(s[b].0, s[a].0));
        crate::text::lemma_lex_irreflexive(s[a].0);
    }
}

/// With increasing keys, the map gives the files of the entry with that key.
proof fn lemma_entries_map_at(s: Seq<PrefetchEntryView>, i: int)
    requires
        keys_increasing(s),
        0 <= i < s.len(),
    ensures
        entries_map(s).contains_key(s[i].0),
        entries_map(s)[s[i].0] == s[i].1,
{
    let k = s[i].0;
    assert(key_index(s, k) is Some);
    let j = key_index(s, k)->0;
    lemma_key_unique(s, i, j);
}

/// Mapping a key in a manifest is a map update: afterwards the key gives the new files, and
/// every other key gives what it gave before.
pub proof fn lemma_map_insert_updates_map(s: Seq<PrefetchEntryView>, k: Seq<char>, files: Seq<Seq<char>>)
    requires
        keys_increasing(s),
    ensures
        entries_map(map_insert(s, k, files)) == entries_map(s).insert(k, files),
{
    let r = map_insert(s, k, files);
    lemma_map_insert_keeps_order(s, k, files);
    let old_map = entries_map(s);
    let new_map = entries_map(r);
    match key_index(s, k) {
        Some(i) => {
            assert(s[i].0 == k);
            assert forall|x: Seq<char>| new_map.contains_key(x) <==> old_map.insert(k, files).contains_key(x) by {
                if new_map.contains_key(x) {
                    let j = key_index(r, x)->0;
                    assert(s[j].0 == x);
                }
                if old_map.contains_key(x) {
                    let j = key_index(s, x)->0;
                    assert(r[j].0 == x);
                }
                if x == k {
                    assert(r[i].0 == k);
                }
            }
            assert forall|x: Seq<char>| #[trigger] new_map.contains_key(x) implies new_map[x] == old_map.insert(k, files)[x] by {
                let j = key_index(r, x)->0;
                lemma_entries_map_at(r, j);
                assert(r[i] == (k, files));
                if j == i {
                    assert(x == k);
                } else {
                    if x == k {
                        lemma_key_unique(r, i, j);
                    }
                    assert(r[j] == s[j]);
                    lemma_entries_map_at(s, j);
                }
            }
            assert(new_map =~= old_map.insert(k, files));
        },
        None => {
            let p = insert_pos(s, (k, files), key_order()) as int;
            lemma_insert_pos_props(s, (k, files), key_order());
            s.insert_ensures(p, (k, files));
            assert(forall|j: int| 0 <= j < s.len() ==> #[trigger] s[j].0 != k);
            assert forall|x: Seq<char>| new_map.contains_key(x) <==> old_map.insert(k, files).contains_key(x) by {
                if new_map.contains_key(x) && x != k {
                    let j = key_index(r, x)->0;
                    if j < p {
                        assert(s[j].0 == x);
                    } else if j > p {
                        assert(s[j - 1].0 == x);
                    }
                }
                if old_map.contains_key(x) {
                    let j = key_index(s, x)->0;
                    if j < p {
                        assert(r[j].0 == x);
                    } else {
                        assert(r[j + 1].0 == x);
                    }
                }
                if x == k {
                    assert(r[p].0 == k);
                }
            }
            assert forall|x: Seq<char>| #[trigger] new_map.contains_key(x) implies new_map[x] == old_map.insert(k, files)[x] by {
                let j = key_index(r, x)->0;
                lemma_entries_map_at(r, j);
                if j < p {
                    assert(r[j] == s[j]);
                    lemma_entries_map_at(s, j);
                } else if j > p {
                    assert(r[j] == s[j - 1]);
                    lemma_entries_map_at(s, j - 1);
                }
            }
            assert(new_map =~= old_map.insert(k, files));
        },
    }
}

/// The map a list of pairs builds, a later pair for a key replacing an earlier one.
pub open spec fn pairs_map(es: Seq<PrefetchEntryView>) -> Map<Seq<char>, Seq<Seq<char>>>
    decreases es.len(),
{
    if es.len() == 0 {
        Map::empty()
    } else {
        pairs_map(es.drop_last()).insert(es.last().0, es.last().1)
    }
}

/// A manifest built from a list of pairs holds exactly the map of those pairs, each key
/// once and in increasing order.
pub proof fn lemma_map_from_entries_is_pairs_map(es: Seq<PrefetchEntryView>)
    ensures
        keys_increasing(map_from_entries(es)),
        entries_map(map_from_entries(es)) == pairs_map(es),
    decreases es.len(),
{
    if es.len() == 0 {
        assert(entries_map(Seq::<PrefetchEntryView>::empty()) =~= Map::<Seq<char>, Seq<Seq<char>>>::empty());
    } else {
        let prev = map_from_entries(es.drop_last());
        lemma_map_from_entries_is_pairs_map(es.drop_last());
        lemma_map_insert_keeps_order(prev, es.last().0, es.last().1);
        lemma_map_insert_updates_map(prev, es.last().0, es.last().1);
    }
}

} // verus!
