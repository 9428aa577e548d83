//! Character-level string helpers with exact specifications.
//!
//! Strings are modelled by their `Seq<char>` views.  The helpers here mirror the
//! small set of `str` operations that route matching and HTML rewriting rely on.

use vstd::prelude::*;

verus! {

/// Appends one character to a `String`.
/// Trusted: `String::push`, documented as appending the given char to the end of the string.
#[verifier::external_body]
pub(crate) fn push_char(s: &mut String, c: char)
    ensures
        final(s)@ == old(s)@.push(c),
{
    s.push(c);
}

/// The characters of `s`, in order.
pub fn chars_of(s: &str) -> (v: Vec<char>)
    ensures
        v@ == s@,
{
    let mut v: Vec<char> = Vec::new();
    for c in it: s.chars()
        invariant
            v@ == it.seq().take(it.index() as int),
            it.seq() == s@,
    {
        v.push(c);
    }
    v
}

/// Appends `v[lo..hi]` to `s`.
pub fn push_range(s: &mut String, v: &Vec<char>, lo: usize, hi: usize)
    requires
        lo <= hi <= v.len(),
    ensures
        final(s)@ == old(s)@ + v@.subrange(lo as int, hi as int),
{
    let ghost start = s@;
    let mut i = lo;
    while i < hi
        invariant
            lo <= i <= hi <= v.len(),
            s@ == start + v@.subrange(lo as int, i as int),
        decreases hi - i,
    {
        push_char(s, v[i]);
        assert(v@.subrange(lo as int, i + 1) == v@.subrange(lo as int, i as int).push(v@[i as int]));
        i += 1;
    }
}

/// Appends every character of `v` to `s`.
pub fn push_all(s: &mut String, v: &Vec<char>)
    ensures
        final(s)@ == old(s)@ + v@,
{
    push_range(s, v, 0, v.len());
    assert(v@.subrange(0, v@.len() as int) == v@);
}

/// A new `String` holding `v[lo..hi]`.
pub fn string_from_range(v: &Vec<char>, lo: usize, hi: usize) -> (r: String)
    requires
        lo <= hi <= v.len(),
    ensures
        r@ == v@.subrange(lo as int, hi as int),
{
    let mut s = String::new();
    push_range(&mut s, v, lo, hi);
    assert(Seq::<char>::empty() + v@.subrange(lo as int, hi as int) == v@.subrange(lo as int, hi as int));
    s
}

/// A new `Vec<char>` holding `v[lo..hi]`.
pub fn vec_from_range(v: &Vec<char>, lo: usize, hi: usize) -> (r: Vec<char>)
    requires
        lo <= hi <= v.len(),
    ensures
        r@ == v@.subrange(lo as int, hi as int),
{
    let mut r: Vec<char> = Vec::new();
    let mut i = lo;
    while i < hi
        invariant
            lo <= i <= hi <= v.len(),
            r@ == v@.subrange(lo as int, i as int),
        decreases hi - i,
    {
        r.push(v[i]);
        assert(v@.subrange(lo as int, i + 1) == v@.subrange(lo as int, i as int).push(v@[i as int]));
        i += 1;
    }
    r
}

/// Copies a `String`, keeping its contents.
pub fn copy_string(s: &String) -> (r: String)
    ensures
        r@ == s@,
{
    s.clone()
}

/// The views of a sequence of strings.
pub open spec fn strings_view(v: Seq<String>) -> Seq<Seq<char>> {
    v.map_values(|s: String| s@)
}

/// Copies a vector of strings, keeping every element.
pub fn copy_strings(v: &Vec<String>) -> (r: Vec<String>)
    ensures
        strings_view(r@) == strings_view(v@),
{
    let mut r: Vec<String> = Vec::new();
    let mut i: usize = 0;
    while i < v.len()
        invariant
            i <= v.len(),
            r.len() == i,
            strings_view(r@) == strings_view(v@).take(i as int),
        decreases v.len() - i,
    {
        let c = copy_string(&v[i]);
        let ghost before = r@;
        r.push(c);
        assert(r@ == before.push(c));
        assert(strings_view(r@).len() == i + 1);
        assert(strings_view(r@) =~= strings_view(v@).take(i + 1)) by {
            assert forall|k: int| 0 <= k < i + 1 implies strings_view(r@)[k] == strings_view(v@)[k] by {
                if k < i {
                    assert(strings_view(before)[k] == strings_view(v@).take(i as int)[k]);
                }
            }
        }
        i += 1;
    }
    assert(strings_view(v@).take(v.len() as int) == strings_view(v@));
    r
}

/// Whether two strings have the same contents.
pub fn same_chars(a: &str, b: &str) -> (r: bool)
    ensures
        r == (a@ == b@),
{
    let va = chars_of(a);
    let vb = chars_of(b);
    if va.len() != vb.len() {
        return false;
    }
    let mut i: usize = 0;
    while i < va.len()
        invariant
            va@ == a@,
            vb@ == b@,
            va.len() == vb.len(),
            i <= va.len(),
            forall|k: int| 0 <= k < i ==> va@[k] == vb@[k],
        decreases va.len() - i,
    {
        if va[i] != vb[i] {
            return false;
        }
        i += 1;
    }
    assert(va@ =~= vb@);
    true
}

// ---------------------------------------------------------------------------
// Whitespace and trimming

/// Whether `c` has the Unicode `White_Space` property (what `char::is_whitespace` tests).
pub open spec fn is_space(c: char) -> bool {
    let n = c as u32;
    ||| (0x9 <= n && n <= 0xd)
    ||| n == 0x20
    ||| n == 0x85
    ||| n == 0xa0
    ||| n == 0x1680
    ||| (0x2000 <= n && n <= 0x200a)
    ||| n == 0x2028
    ||| n == 0x2029
    ||| n == 0x202f
    ||| n == 0x205f
    ||| n == 0x3000
}

/// Executable test for [`is_space`].
pub fn is_space_char(c: char) -> (r: bool)
    ensures
        r == is_space(c),
{
    let n = c as u32;
    (0x9 <= n && n <= 0xd) || n == 0x20 || n == 0x85 || n == 0xa0 || n == 0x1680 || (0x2000 <= n
        && n <= 0x200a) || n == 0x2028 || n == 0x2029 || n == 0x202f || n == 0x205f || n == 0x3000
}

/// `s` without its leading whitespace.
pub open spec fn trim_start(s: Seq<char>) -> Seq<char>
    decreases s.len(),
{
    if s.len() > 0 && is_space(s[0]) {
        trim_start(s.drop_first())
    } else {
        s
    }
}

/// `s` without its trailing whitespace.
pub open spec fn trim_end(s: Seq<char>) -> Seq<char>
    decreases s.len(),
{
    if s.len() > 0 && is_space(s.last()) {
        trim_end(s.drop_last())
    } else {
        s
    }
}

/// `s` without leading and trailing whitespace (what `str::trim` returns).
pub open spec fn trim(s: Seq<char>) -> Seq<char> {
    trim_end(trim_start(s))
}

/// `s` without any leading occurrence of `c` (what `str::trim_start_matches(c)` returns).
pub open spec fn strip_start(s: Seq<char>, c: char) -> Seq<char>
    decreases s.len(),
{
    if s.len() > 0 && s[0] == c {
        strip_start(s.drop_first(), c)
    } else {
        s
    }
}

/// `s` without any trailing occurrence of `c` (what `str::trim_end_matches(c)` returns).
pub open spec fn strip_end(s: Seq<char>, c: char) -> Seq<char>
    decreases s.len(),
{
    if s.len() > 0 && s.last() == c {
        strip_end(s.drop_last(), c)
    } else {
        s
    }
}

/// Bounds `(lo, hi)` such that `v[lo..hi]` is `trim(v)`.
pub fn trim_bounds(v: &Vec<char>) -> (r: (usize, usize))
    ensures
        r.0 <= r.1 <= v.len(),
        v@.subrange(r.0 as int, r.1 as int) == trim(v@),
{
    let mut lo: usize = 0;
    assert(v@.subrange(0, v.len() as int) == v@);
    while lo < v.len() && is_space_char(v[lo])
        invariant
            lo <= v.len(),
            trim_start(v@) == trim_start(v@.subrange(lo as int, v.len() as int)),
        decreases v.len() - lo,
    {
        assert(v@.subrange(lo as int, v.len() as int).drop_first() == v@.subrange(lo + 1, v.len() as int));
        lo += 1;
    }
    assert(trim_start(v@) == v@.subrange(lo as int, v.len() as int));
    let mut hi: usize = v.len();
    while hi > lo && is_space_char(v[hi - 1])
        invariant
            lo <= hi <= v.len(),
            trim(v@) == trim_end(v@.subrange(lo as int, hi as int)),
        decreases hi,
    {
        assert(v@.subrange(lo as int, hi as int).drop_last() == v@.subrange(lo as int, hi - 1));
        hi -= 1;
    }
    (lo, hi)
}

/// Bounds `(lo, hi)` such that `v[lo..hi]` is `strip_end(strip_start(v, c), c)`, taken on `v[from..to]`.
pub fn strip_bounds(v: &Vec<char>, from: usize, to: usize, c: char, at_start: bool, at_end: bool) -> (r: (usize, usize))
    requires
        from <= to <= v.len(),
    ensures
        from <= r.0 <= r.1 <= to,
        ({
            let s = v@.subrange(from as int, to as int);
            let s1 = if at_start { strip_start(s, c) } else { s };
            let s2 = if at_end { strip_end(s1, c) } else { s1 };
            v@.subrange(r.0 as int, r.1 as int) == s2
        }),
{
    let ghost s = v@.subrange(from as int, to as int);
    let ghost s1 = if at_start { strip_start(s, c) } else { s };
    let mut lo: usize = from;
    if at_start {
        while lo < to && v[lo] == c
            invariant
                from <= lo <= to <= v.len(),
                strip_start(s, c) == strip_start(v@.subrange(lo as int, to as int), c),
            decreases to - lo,
        {
            assert(v@.subrange(lo as int, to as int).drop_first() == v@.subrange(lo + 1, to as int));
            lo += 1;
        }
    }
    assert(s1 == v@.subrange(lo as int, to as int));
    let mut hi: usize = to;
    if at_end {
        while hi > lo && v[hi - 1] == c
            invariant
                from <= lo <= hi <= to <= v.len(),
                strip_end(s1, c) == strip_end(v@.subrange(lo as int, hi as int), c),
            decreases hi,
        {
            assert(v@.subrange(lo as int, hi as int).drop_last() == v@.subrange(lo as int, hi - 1));
            hi -= 1;
        }
    }
    (lo, hi)
}


// ---------------------------------------------------------------------------
// Splitting into non-empty pieces

/// The maximal non-empty runs of `s` that hold no `sep`, in order.
/// This is what `s.split(sep).filter(|p| !p.is_empty())` yields.
pub open spec fn pieces(s: Seq<char>, sep: char) -> Seq<Seq<char>>
    decreases s.len(),
{
    if s.len() == 0 {
        Seq::empty()
    } else {
        let rest = pieces(s.drop_first(), sep);
        if s[0] == sep {
            rest
        } else if s.len() > 1 && s[1] != sep {
            seq![seq![s[0]] + rest[0]].add(rest.drop_first())
        } else {
            seq![seq![s[0]]].add(rest)
        }
    }
}

/// The views of a sequence of character vectors.
pub open spec fn nested_view(v: Seq<Vec<char>>) -> Seq<Seq<char>> {
    v.map_values(|x: Vec<char>| x@)
}

proof fn lemma_pieces_nonempty_start(s: Seq<char>, sep: char)
    requires
        s.len() > 0,
        s[0] != sep,
    ensures
        pieces(s, sep).len() > 0,
    decreases s.len(),
{
    if s.len() > 1 && s[1] != sep {
        lemma_pieces_nonempty_start(s.drop_first(), sep);
    }
}

proof fn lemma_pieces_run(s: Seq<char>, i: int, j: int, sep: char)
    requires
        0 <= i < j <= s.len(),
        forall|k: int| i <= k < j ==> s[k] != sep,
        j == s.len() || s[j] == sep,
    ensures
        pieces(s.skip(i), sep) == seq![s.subrange(i, j)].add(pieces(s.skip(j), sep)),
    decreases j - i,
{
    let t = s.skip(i);
    assert(t.drop_first() =~= s.skip(i + 1));
    if j == i + 1 {
        assert(s.subrange(i, j) =~= seq![s[i]]);
    } else {
        lemma_pieces_run(s, i + 1, j, sep);
        assert(t[1] == s[i + 1]);
        let rest = pieces(s.skip(i + 1), sep);
        assert(rest[0] == s.subrange(i + 1, j));
        assert(rest.drop_first() =~= pieces(s.skip(j), sep));
        assert(seq![s[i]] + s.subrange(i + 1, j) =~= s.subrange(i, j));
    }
}

proof fn lemma_pieces_sep(s: Seq<char>, i: int, sep: char)
    requires
        0 <= i < s.len(),
        s[i] == sep,
    ensures
        pieces(s.skip(i), sep) == pieces(s.skip(i + 1), sep),
{
    assert(s.skip(i).drop_first() =~= s.skip(i + 1));
}

/// The non-empty `sep`-free pieces of `v`, in order.
pub fn pieces_of(v: &Vec<char>, sep: char) -> (r: Vec<Vec<char>>)
    ensures
        nested_view(r@) == pieces(v@, sep),
{
    let mut out: Vec<Vec<char>> = Vec::new();
    let mut i: usize = 0;
    assert(v@.skip(0) =~= v@);
    while i < v.len()
        invariant
            i <= v.len(),
            pieces(v@, sep) == nested_view(out@) + pieces(v@.skip(i as int), sep),
        decreases v.len() - i,
    {
        if v[i] == sep {
            proof {
                lemma_pieces_sep(v@, i as int, sep);
            }
            i += 1;
        } else {
            let mut j = i;
            while j < v.len() && v[j] != sep
                invariant
                    i <= j <= v.len(),
                    forall|k: int| i <= k < j ==> v@[k] != sep,
                decreases v.len() - j,
            {
                j += 1;
            }
            proof {
                lemma_pieces_run(v@, i as int, j as int, sep);
            }
            let piece = vec_from_range(v, i, j);
            let ghost before = out@;
            out.push(piece);
            assert(nested_view(out@) =~= nested_view(before).push(v@.subrange(i as int, j as int)));
            assert(nested_view(before) + seq![v@.subrange(i as int, j as int)].add(pieces(v@.skip(j as int), sep))
                =~= nested_view(out@) + pieces(v@.skip(j as int), sep));
            i = j;
        }
    }
    assert(v@.skip(v.len() as int) =~= Seq::<char>::empty());
    assert(nested_view(out@) + Seq::<Seq<char>>::empty() =~= nested_view(out@));
    out
}

// ---------------------------------------------------------------------------
// Prefix up to a character, suffix after a character

/// Index of the first `c` in `s`, or `s.len()` when there is none.
pub open spec fn first_index(s: Seq<char>, c: char) -> nat
    decreases s.len(),
{
    if s.len() == 0 || s[0] == c {
        0
    } else {
        1 + first_index(s.drop_first(), c)
    }
}

/// The part of `s` before its first `c` (what `s.split(c).next()` yields).
pub open spec fn before_first(s: Seq<char>, c: char) -> Seq<char> {
    s.take(first_index(s, c) as int)
}

/// Index just past the last `c` in `s`, or 0 when there is none.
pub open spec fn last_end(s: Seq<char>, c: char) -> nat
    decreases s.len(),
{
    if s.len() == 0 {
        0
    } else if s.last() == c {
        s.len()
    } else {
        last_end(s.drop_last(), c)
    }
}

/// The part of `s` after its last `c` (what `s.rsplit(c).next()` yields).
pub open spec fn after_last(s: Seq<char>, c: char) -> Seq<char> {
    s.skip(last_end(s, c) as int)
}

proof fn lemma_first_index_bound(s: Seq<char>, c: char)
    ensures
        first_index(s, c) <= s.len(),
        first_index(s, c) < s.len() ==> s[first_index(s, c) as int] == c,
        forall|k: int| 0 <= k < first_index(s, c) ==> s[k] != c,
    decreases s.len(),
{
    if s.len() > 0 && s[0] != c {
        lemma_first_index_bound(s.drop_first(), c);
        assert forall|k: int| 0 <= k < first_index(s, c) implies s[k] != c by {
            if k > 0 {
                assert(s[k] == s.drop_first()[k - 1]);
            }
        }
    }
}

/// Index of the first `c` in `v[from..]`, counted from `from`; `v.len()` when there is none.
pub fn first_index_of(v: &Vec<char>, c: char) -> (r: usize)
    ensures
        r == first_index(v@, c),
        r <= v.len(),
{
    proof {
        lemma_first_index_bound(v@, c);
    }
    let mut i: usize = 0;
    while i < v.len() && v[i] != c
        invariant
            i <= v.len(),
            forall|k: int| 0 <= k < i ==> v@[k] != c,
            first_index(v@, c) <= v.len(),
            first_index(v@, c) < v.len() ==> v@[first_index(v@, c) as int] == c,
            forall|k: int| 0 <= k < first_index(v@, c) ==> v@[k] != c,
        decreases v.len() - i,
    {
        i += 1;
    }
    i
}

proof fn lemma_last_end_bound(s: Seq<char>, c: char)
    ensures
        last_end(s, c) <= s.len(),
        last_end(s, c) > 0 ==> s[last_end(s, c) - 1] == c,
        forall|k: int| last_end(s, c) <= k < s.len() ==> s[k] != c,
    decreases s.len(),
{
    if s.len() > 0 && s.last() != c {
        lemma_last_end_bound(s.drop_last(), c);
        assert forall|k: int| last_end(s, c) <= k < s.len() implies s[k] != c by {
            if k < s.len() - 1 {
                assert(s[k] == s.drop_last()[k]);
            }
        }
    }
}

/// Index just past the last `c` in `v`, or 0 when there is none.
pub fn last_end_of(v: &Vec<char>, c: char) -> (r: usize)
    ensures
        r == last_end(v@, c),
        r <= v.len(),
{
    proof {
        lemma_last_end_bound(v@, c);
    }
    let mut i: usize = v.len();
    while i > 0 && v[i - 1] != c
        invariant
            i <= v.len(),
            forall|k: int| i <= k < v.len() ==> v@[k] != c,
            last_end(v@, c) <= v.len(),
            last_end(v@, c) > 0 ==> v@[last_end(v@, c) - 1] == c,
            forall|k: int| last_end(v@, c) <= k < v.len() ==> v@[k] != c,
        decreases i,
    {
        i -= 1;
    }
    i
}

// ---------------------------------------------------------------------------
// Searching for a sub-sequence

/// Whether `n` occurs in `h` at index `i`.
pub open spec fn occurs_at(h: Seq<char>, n: Seq<char>, i: int) -> bool {
    0 <= i && i + n.len() <= h.len() && h.subrange(i, i + n.len()) == n
}

/// Index of the first occurrence of `n` in `h` at or after `from`.
pub open spec fn first_occurrence(h: Seq<char>, n: Seq<char>, from: nat) -> Option<nat>
    decreases h.len() - from,
{
    if from + n.len() > h.len() {
        None
    } else if occurs_at(h, n, from as int) {
        Some(from)
    } else if from >= h.len() {
        None
    } else {
        first_occurrence(h, n, from + 1)
    }
}

/// Whether `n` occurs anywhere in `h`.
pub open spec fn contains_seq(h: Seq<char>, n: Seq<char>) -> bool {
    exists|i: int| occurs_at(h, n, i)
}

pub proof fn lemma_first_occurrence(h: Seq<char>, n: Seq<char>, from: nat)
    ensures
        first_occurrence(h, n, from) matches Some(k) ==> from <= k && occurs_at(h, n, k as int) && forall|m: int| from <= m < k ==> !occurs_at(h, n, m),
        first_occurrence(h, n, from) is None ==> forall|m: int| from <= m ==> !occurs_at(h, n, m),
    decreases h.len() - from,
{
    if from + n.len() <= h.len() && !occurs_at(h, n, from as int) && from < h.len() {
        lemma_first_occurrence(h, n, from + 1);
    }
    if from + n.len() <= h.len() && !occurs_at(h, n, from as int) && from >= h.len() {
        assert(h.subrange(from as int, from as int) =~= n);
    }
}

/// Whether `n` occurs in `h` at index `i`.
pub fn occurs_at_exec(h: &Vec<char>, n: &Vec<char>, i: usize) -> (r: bool)
    ensures
        r == occurs_at(h@, n@, i as int),
{
    if i > h.len() || n.len() > h.len() - i {
        return false;
    }
    let mut k: usize = 0;
    while k < n.len()
        invariant
            i + n.len() <= h.len(),
            k <= n.len(),
            forall|m: int| 0 <= m < k ==> h@[i + m] == n@[m],
        decreases n.len() - k,
    {
        if h[i + k] != n[k] {
            assert(h@.subrange(i as int, i + n.len())[k as int] != n@[k as int]);
            return false;
        }
        k += 1;
    }
    assert(h@.subrange(i as int, i + n.len()) =~= n@);
    true
}

/// Index of the first occurrence of `n` in `h` at or after `from`.
pub fn find_from(h: &Vec<char>, n: &Vec<char>, from: usize) -> (r: Option<usize>)
    ensures
        match r {
            Some(k) => first_occurrence(h@, n@, from as nat) == Some(k as nat),
            None => first_occurrence(h@, n@, from as nat) is None,
        },
{
    let mut i = from;
    while i <= h.len() && n.len() <= h.len() - i
        invariant
            from <= i,
            first_occurrence(h@, n@, from as nat) == first_occurrence(h@, n@, i as nat),
        decreases h.len() + 1 - i,
    {
        if occurs_at_exec(h, n, i) {
            return Some(i);
        }
        proof {
            if i == h.len() {
                assert(h@.subrange(i as int, i as int) =~= n@);
            }
        }
        i += 1;
    }
    None
}

/// Whether `n` occurs anywhere in `h`.
pub fn contains_exec(h: &Vec<char>, n: &Vec<char>) -> (r: bool)
    ensures
        r == contains_seq(h@, n@),
{
    let f = find_from(h, n, 0);
    proof {
        lemma_first_occurrence(h@, n@, 0);
    }
    f.is_some()
}

// ---------------------------------------------------------------------------
// ASCII lowercase

/// `c` with ASCII upper-case letters mapped to lower case (what `char::to_ascii_lowercase` returns).
pub open spec fn ascii_lower(c: char) -> char {
    if 'A' <= c && c <= 'Z' {
        ((c as u32) + 32) as char
    } else {
        c
    }
}

/// `s` with ASCII upper-case letters mapped to lower case (what `str::to_ascii_lowercase` returns).
pub open spec fn ascii_lower_seq(s: Seq<char>) -> Seq<char> {
    s.map_values(|c: char| ascii_lower(c))
}

/// Executable [`ascii_lower_seq`].
pub fn ascii_lowercase(v: &Vec<char>) -> (r: Vec<char>)
    ensures
        r@ == ascii_lower_seq(v@),
{
    let mut r: Vec<char> = Vec::new();
    let mut i: usize = 0;
    while i < v.len()
        invariant
            i <= v.len(),
            r.len() == i,
            forall|k: int| 0 <= k < i ==> r@[k] == ascii_lower(v@[k]),
        decreases v.len() - i,
    {
        let c = v[i];
        let l = if 'A' <= c && c <= 'Z' {
            let b: u8 = (c as u8) + 32;
            b as char
        } else {
            c
        };
        r.push(l);
        i += 1;
    }
    assert(r@ =~= ascii_lower_seq(v@));
    r
}


// ---------------------------------------------------------------------------
// Lexicographic order

/// `a` sorts strictly before `b`, comparing characters by code point
/// (the order of `str` and `String`, whose UTF-8 byte order agrees with code point order).
pub open spec fn lex_lt(a: Seq<char>, b: Seq<char>) -> bool
    decreases a.len(),
{
    if a.len() == 0 {
        b.len() > 0
    } else if b.len() == 0 {
        false
    } else if a[0] != b[0] {
        a[0] < b[0]
    } else {
        lex_lt(a.drop_first(), b.drop_first())
    }
}

/// `lex_lt` is irreflexive.
pub proof fn lemma_lex_irreflexive(a: Seq<char>)
    ensures
        !lex_lt(a, a),
    decreases a.len(),
{
    if a.len() > 0 {
        lemma_lex_irreflexive(a.drop_first());
    }
}

/// `lex_lt` is total on distinct sequences and asymmetric.
pub proof fn lemma_lex_total(a: Seq<char>, b: Seq<char>)
    ensures
        a != b ==> (lex_lt(a, b) || lex_lt(b, a)),
        !(lex_lt(a, b) && lex_lt(b, a)),
        a == b ==> !lex_lt(a, b),
    decreases a.len(),
{
    if a == b {
        lemma_lex_irreflexive(a);
    } else if a.len() > 0 && b.len() > 0 && a[0] == b[0] {
        lemma_lex_total(a.drop_first(), b.drop_first());
        if a.drop_first() == b.drop_first() {
            assert(a =~= seq![a[0]] + a.drop_first());
            assert(b =~= seq![b[0]] + b.drop_first());
        }
    } else if a.len() == 0 && b.len() == 0 {
        assert(a =~= b);
    }
}

/// `lex_lt` is transitive.
pub proof fn lemma_lex_transitive(a: Seq<char>, b: Seq<char>, c: Seq<char>)
    requires
        lex_lt(a, b),
        lex_lt(b, c),
    ensures
        lex_lt(a, c),
    decreases a.len(),
{
    if a.len() > 0 && b.len() > 0 && c.len() > 0 && a[0] == b[0] && b[0] == c[0] {
        lemma_lex_transitive(a.drop_first(), b.drop_first(), c.drop_first());
    }
}

/// Whether `a` sorts strictly before `b`.
pub fn lex_less(a: &Vec<char>, b: &Vec<char>) -> (r: bool)
    ensures
        r == lex_lt(a@, b@),
{
    let mut i: usize = 0;
    assert(a@.skip(0) =~= a@);
    assert(b@.skip(0) =~= b@);
    while i < a.len() && i < b.len() && a[i] == b[i]
        invariant
            i <= a.len(),
            i <= b.len(),
            lex_lt(a@, b@) == lex_lt(a@.skip(i as int), b@.skip(i as int)),
        decreases a.len() - i,
    {
        assert(a@.skip(i as int).drop_first() =~= a@.skip(i + 1));
        assert(b@.skip(i as int).drop_first() =~= b@.skip(i + 1));
        i += 1;
    }
    if i == a.len() {
        i < b.len()
    } else if i == b.len() {
        false
    } else {
        a[i] < b[i]
    }
}

} // verus!
