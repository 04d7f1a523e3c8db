//! The placeholder scanner.
//!
//! A placeholder occurrence is a shortest span `{[name]}` whose interior
//! contains no line break. Scanning walks the text left to right and
//! collects non-overlapping occurrences; the name is the text between the
//! delimiters.

use vstd::prelude::*;

verus! {

/// The two-character opening delimiter `{[` starts at position `i`.
pub open spec fn open_at(s: Seq<char>, i: int) -> bool {
    &&& 0 <= i
    &&& i + 2 <= s.len()
    &&& s[i] == '{'
    &&& s[i + 1] == '['
}

/// The two-character closing delimiter `]}` starts at position `k`.
pub open spec fn close_at(s: Seq<char>, k: int) -> bool {
    &&& 0 <= k
    &&& k + 2 <= s.len()
    &&& s[k] == ']'
    &&& s[k + 1] == '}'
}

/// A placeholder occurrence spans positions `i .. k + 2`: an opening
/// delimiter at `i`, the earliest closing delimiter at `k`, and an interior
/// (the name) free of line breaks and of earlier closing delimiters.
pub open spec fn match_at(s: Seq<char>, i: int, k: int) -> bool {
    &&& open_at(s, i)
    &&& close_at(s, k)
    &&& i + 2 <= k
    &&& forall|m: int| i + 2 <= m < k ==> s[m] != '\n'
    &&& forall|m: int| i + 2 <= m < k ==> !close_at(s, m)
}

/// Some placeholder occurrence starts at position `i`.
pub open spec fn match_starts_at(s: Seq<char>, i: int) -> bool {
    exists|k: int| match_at(s, i, k)
}

/// The closing position of the occurrence starting at `i` (meaningful only
/// when `match_starts_at(s, i)` holds; it is then unique).
pub open spec fn close_of(s: Seq<char>, i: int) -> int {
    choose|k: int| match_at(s, i, k)
}

/// An occurrence starting at a given position closes at exactly one place.
pub proof fn lemma_close_unique(s: Seq<char>, i: int, k1: int, k2: int)
    requires
        match_at(s, i, k1),
        match_at(s, i, k2),
    ensures
        k1 == k2,
{
    if k1 < k2 {
        assert(close_at(s, k1));
        assert(i + 2 <= k1 < k2);
    } else if k2 < k1 {
        assert(close_at(s, k2));
        assert(i + 2 <= k2 < k1);
    }
}

/// All placeholder occurrences of `s` from position `p` on, in text order,
/// as `(start, close)` position pairs of non-overlapping spans.
pub open spec fn matches_from(s: Seq<char>, p: int) -> Seq<(int, int)>
    decreases s.len() - p
        when 0 <= p
        via matches_from_decreases
{
    if p + 4 > s.len() {
        Seq::empty()
    } else if match_starts_at(s, p) {
        seq![(p, close_of(s, p))] + matches_from(s, close_of(s, p) + 2)
    } else {
        matches_from(s, p + 1)
    }
}

#[via_fn]
proof fn matches_from_decreases(s: Seq<char>, p: int) {
    if 0 <= p && p + 4 <= s.len() && match_starts_at(s, p) {
        let k = choose|k: int| match_at(s, p, k);
        assert(match_at(s, p, k));
        lemma_close_unique(s, p, k, close_of(s, p));
    }
}

/// The name of an occurrence: the text strictly between the delimiters.
pub open spec fn name_of(s: Seq<char>, m: (int, int)) -> Seq<char> {
    s.subrange(m.0 + 2, m.1)
}

/// The names of the occurrences from position `p` on, in text order,
/// with repetitions.
pub open spec fn names_from(s: Seq<char>, p: int) -> Seq<Seq<char>> {
    matches_from(s, p).map_values(|m: (int, int)| name_of(s, m))
}

/// The names of all occurrences of `s`, in text order, with repetitions.
pub open spec fn match_names(s: Seq<char>) -> Seq<Seq<char>> {
    names_from(s, 0)
}

/// The set of distinct placeholder names of `s`.
pub open spec fn names_set(s: Seq<char>) -> Set<Seq<char>> {
    match_names(s).to_set()
}

/// How many values of a sequence of names equal `x`.
pub open spec fn count_of(names: Seq<Seq<char>>, x: Seq<char>) -> nat
    decreases names.len(),
{
    if names.len() == 0 {
        0
    } else {
        count_of(names.drop_last(), x) + if names.last() == x {
            1nat
        } else {
            0nat
        }
    }
}

/// How many occurrences of `s` carry the name `x`.
pub open spec fn occurrences(s: Seq<char>, x: Seq<char>) -> nat {
    count_of(match_names(s), x)
}

/// Line-break exclusion: a delimiter pair whose interior contains a line
/// break is not recognized as a placeholder occurrence; occurrences never
/// carry names with line breaks.
pub proof fn lemma_line_break_excluded(s: Seq<char>, i: int, k: int, p: int)
    requires
        match_at(s, i, k),
        i + 2 <= p < k,
    ensures
        s[p] != '\n',
{
}

/// A text in which the opening delimiter never occurs has no placeholder
/// occurrences at all. In particular, a completed prompt whose values and
/// remaining prose avoid `{[` carries no placeholder syntax.
pub proof fn lemma_no_opener_no_placeholders(t: Seq<char>, p: int)
    requires
        0 <= p,
        forall|q: int| 0 <= q < t.len() - 1 ==> !(#[trigger] t[q] == '{' && t[q + 1] == '['),
    ensures
        matches_from(t, p) == Seq::<(int, int)>::empty(),
        names_set(t) == Set::<Seq<char>>::empty(),
    decreases t.len() - p,
{
    if p + 4 <= t.len() {
        if match_starts_at(t, p) {
            let k = choose|k: int| match_at(t, p, k);
            assert(match_at(t, p, k));
            assert(t[p] == '{' && t[p + 1] == '[');
        }
        lemma_no_opener_no_placeholders(t, p + 1);
    } else {
        lemma_no_opener_no_placeholders_tail(t);
    }
}

/// Helper: the name set over an opener-free text is empty.
proof fn lemma_no_opener_no_placeholders_tail(t: Seq<char>)
    requires
        forall|q: int| 0 <= q < t.len() - 1 ==> !(#[trigger] t[q] == '{' && t[q + 1] == '['),
    ensures
        names_set(t) == Set::<Seq<char>>::empty(),
{
    if matches_from(t, 0).len() > 0 {
        lemma_matches_from_head(t, 0);
        let m0 = matches_from(t, 0)[0];
        assert(t[m0.0] == '{' && t[m0.0 + 1] == '[');
    }
    assert(match_names(t) =~= Seq::<Seq<char>>::empty());
    assert(names_set(t) =~= Set::<Seq<char>>::empty());
}

/// A name wrapped in the placeholder delimiters: `{[name]}`.
pub open spec fn delimited(name: Seq<char>) -> Seq<char> {
    seq!['{', '['] + name + seq![']', '}']
}

/// A character that is not part of the delimiter syntax.
pub open spec fn is_clean_char(c: char) -> bool {
    c != '{' && c != '[' && c != ']' && c != '}'
}

/// A fill value that cannot create or complete delimiter syntax: it is
/// not empty and holds no delimiter characters.
pub open spec fn clean_value(v: Seq<char>) -> bool {
    v.len() > 0 && forall|i: int| 0 <= i < v.len() ==> is_clean_char(#[trigger] v[i])
}

/// A closing delimiter stands at `k`, reachable from `p` without crossing
/// a line break.
pub open spec fn reach_close_at(s: Seq<char>, p: int, k: int) -> bool {
    &&& p <= k
    &&& close_at(s, k)
    &&& forall|w: int| p <= w < k ==> s[w] != '\n'
}

/// Some closing delimiter is reachable from `p` without a line break.
pub open spec fn reach_close(s: Seq<char>, p: int) -> bool {
    exists|k: int| reach_close_at(s, p, k)
}

/// A closing delimiter at `k`, reachable from `p` without a line break,
/// with no closing delimiter before it.
pub open spec fn first_close_from(s: Seq<char>, p: int, k: int) -> bool {
    &&& reach_close_at(s, p, k)
    &&& forall|w: int| p <= w < k ==> !close_at(s, w)
}

/// Among the reachable closing delimiters there is an earliest one.
proof fn lemma_minimal_close(s: Seq<char>, p: int, k: int)
    requires
        reach_close_at(s, p, k),
    ensures
        exists|k2: int| #[trigger] first_close_from(s, p, k2),
    decreases k - p,
{
    if exists|w: int| p <= w < k && close_at(s, w) {
        let w0 = choose|w: int| p <= w < k && #[trigger] close_at(s, w);
        assert(reach_close_at(s, p, w0));
        lemma_minimal_close(s, p, w0);
    } else {
        assert(first_close_from(s, p, k));
    }
}

/// An opening delimiter from which a closing delimiter is reachable
/// without a line break starts an occurrence.
proof fn lemma_open_with_reach_matches(s: Seq<char>, i: int, k: int)
    requires
        open_at(s, i),
        reach_close_at(s, i + 2, k),
    ensures
        match_starts_at(s, i),
{
    lemma_minimal_close(s, i + 2, k);
    let k2 = choose|k2: int| #[trigger] first_close_from(s, i + 2, k2);
    assert(first_close_from(s, i + 2, k2));
    assert(match_at(s, i, k2));
}

/// A match of a concatenation that lies in the right part is a match of
/// the right part.
proof fn lemma_match_shift(u: Seq<char>, w: Seq<char>, i: int, k: int)
    requires
        match_at(u + w, i, k),
        u.len() <= i,
    ensures
        match_at(w, i - u.len(), k - u.len()),
{
    let t = u + w;
    let d = u.len() as int;
    assert forall|q: int| 0 <= q < w.len() implies #[trigger] w[q] == t[q + d] by {}
    assert forall|q: int| i - d + 2 <= q < k - d implies w[q] != '\n' by {
        assert(t[q + d] != '\n');
    }
    assert forall|q: int| i - d + 2 <= q < k - d implies !close_at(w, q) by {
        if close_at(w, q) {
            assert(t[q + d] == ']' && t[q + d + 1] == '}');
            assert(close_at(t, q + d));
        }
    }
}

/// No occurrence starting anywhere means the match list is empty.
proof fn lemma_no_match_starts_empty(t: Seq<char>, p: int)
    requires
        0 <= p,
        forall|q: int| !match_starts_at(t, #[trigger] (q + 0)),
    ensures
        matches_from(t, p) == Seq::<(int, int)>::empty(),
    decreases t.len() - p,
{
    if p + 4 <= t.len() {
        assert(!match_starts_at(t, p + 0));
        lemma_no_match_starts_empty(t, p + 1);
    }
}

/// Rendering with fill values that cannot create or complete delimiter
/// syntax yields a text with no occurrences; additionally, a closing
/// delimiter reachable in the rendering was already reachable in the
/// source, and the rendering starts with a source character or a clean
/// value character.
proof fn lemma_render_no_syntax(s: Seq<char>, m: Map<Seq<char>, Seq<char>>, p: int)
    requires
        0 <= p <= s.len(),
        forall|n: Seq<char>| names_from(s, p).contains(n) ==> clean_value(#[trigger] m[n]),
    ensures
        forall|q: int| !match_starts_at(render_from(s, p, m), #[trigger] (q + 0)),
        reach_close(render_from(s, p, m), 0) ==> reach_close(s, p),
        render_from(s, p, m).len() > 0 ==> ((p < s.len() && render_from(s, p, m)[0] == s[p])
            || is_clean_char(render_from(s, p, m)[0])),
    decreases s.len() - p,
{
    let r = render_from(s, p, m);
    if p + 4 > s.len() {
        assert(r == s.subrange(p, s.len() as int));
        assert forall|q: int| !match_starts_at(r, #[trigger] (q + 0)) by {
            if match_starts_at(r, q + 0) {
                let kk = choose|kk: int| #[trigger] match_at(r, q + 0, kk);
                assert(match_at(r, q + 0, kk));
                assert(q + 4 <= r.len());
                assert(r.len() <= 3);
            }
        }
        if reach_close(r, 0) {
            let j = choose|j: int| #[trigger] reach_close_at(r, 0, j);
            assert(reach_close_at(r, 0, j));
            assert(close_at(s, p + j));
            assert forall|w: int| p <= w < p + j implies s[w] != '\n' by {
                assert(r[w - p] != '\n');
            }
            assert(reach_close_at(s, p, p + j));
        }
    } else if match_starts_at(s, p) {
        let k = choose|k: int| match_at(s, p, k);
        assert(match_at(s, p, k));
        lemma_close_unique(s, p, k, close_of(s, p));
        let nm = name_of(s, (p, k));
        let v = m[nm];
        let rest = render_from(s, k + 2, m);
        assert(r == v + rest);
        lemma_matches_from_match(s, p, k);
        assert(names_from(s, p) =~= seq![nm] + names_from(s, k + 2));
        assert(names_from(s, p)[0] == nm);
        assert(names_from(s, p).contains(nm));
        assert(clean_value(v));
        assert forall|n: Seq<char>|
            names_from(s, k + 2).contains(n) implies clean_value(#[trigger] m[n]) by {
            let t = choose|t: int|
                0 <= t < names_from(s, k + 2).len() && #[trigger] names_from(s, k + 2)[t] == n;
            assert(names_from(s, p)[t + 1] == n);
            assert(names_from(s, p).contains(n));
        }
        lemma_render_no_syntax(s, m, k + 2);
        assert forall|q: int| !match_starts_at(r, #[trigger] (q + 0)) by {
            if match_starts_at(r, q + 0) {
                let kk = choose|kk: int| #[trigger] match_at(r, q + 0, kk);
                assert(match_at(r, q + 0, kk));
                if q < v.len() {
                    assert(r[q + 0] == v[q]);
                    assert(is_clean_char(v[q]));
                } else {
                    lemma_match_shift(v, rest, q + 0, kk);
                    assert(match_starts_at(rest, (q - v.len()) + 0));
                }
            }
        }
        assert(reach_close_at(s, p, k));
        assert(reach_close(s, p));
        assert(r.len() > 0 && r[0] == v[0] && is_clean_char(v[0]));
    } else {
        assert(names_from(s, p) =~= names_from(s, p + 1));
        lemma_render_no_syntax(s, m, p + 1);
        let rest = render_from(s, p + 1, m);
        assert(r == seq![s[p]] + rest);
        assert(r[0] == s[p]);
        assert forall|q: int| !match_starts_at(r, #[trigger] (q + 0)) by {
            if match_starts_at(r, q + 0) {
                let kk = choose|kk: int| #[trigger] match_at(r, q + 0, kk);
                assert(match_at(r, q + 0, kk));
                if q >= 1 {
                    lemma_match_shift(seq![s[p]], rest, q + 0, kk);
                    assert(match_starts_at(rest, (q - 1) + 0));
                } else {
                    assert(q == 0);
                    assert(r[0] == '{');
                    assert(kk >= 2 && kk + 2 <= r.len());
                    assert(rest.len() > 0);
                    assert(r[1] == rest[0]);
                    assert(rest[0] == '[');
                    assert(p + 1 < s.len() && rest[0] == s[p + 1]);
                    assert(open_at(s, p));
                    assert(close_at(rest, kk - 1));
                    assert forall|w: int| 0 <= w < kk - 1 implies rest[w] != '\n' by {
                        if w == 0 {
                            assert(rest[0] == '[');
                        } else {
                            assert(rest[w] == r[w + 1]);
                        }
                    }
                    assert(reach_close_at(rest, 0, kk - 1));
                    assert(reach_close(rest, 0));
                    assert(reach_close(s, p + 1));
                    let k3 = choose|k3: int| #[trigger] reach_close_at(s, p + 1, k3);
                    assert(reach_close_at(s, p + 1, k3));
                    assert(s[p + 1] == '[');
                    assert(k3 != p + 1);
                    assert(reach_close_at(s, p + 2, k3));
                    lemma_open_with_reach_matches(s, p, k3);
                }
            }
        }
        if reach_close(r, 0) {
            let j = choose|j: int| #[trigger] reach_close_at(r, 0, j);
            assert(reach_close_at(r, 0, j));
            if j == 0 {
                assert(r[0] == ']');
                assert(r[1] == rest[0]);
                if rest.len() > 0 && p + 1 < s.len() && rest[0] == s[p + 1] {
                    assert(close_at(s, p));
                    assert(reach_close_at(s, p, p));
                } else {
                    assert(is_clean_char(rest[0]));
                }
            } else {
                assert(close_at(rest, j - 1));
                assert forall|w: int| 0 <= w < j - 1 implies rest[w] != '\n' by {
                    assert(rest[w] == r[w + 1]);
                }
                assert(reach_close_at(rest, 0, j - 1));
                assert(reach_close(rest, 0));
                assert(reach_close(s, p + 1));
                let k3 = choose|k3: int| #[trigger] reach_close_at(s, p + 1, k3);
                assert(reach_close_at(s, p + 1, k3));
                assert(s[p] == r[0] && r[0] != '\n');
                assert(reach_close_at(s, p, k3));
            }
        }
    }
}

/// Round-trip cleanliness: when every fill value is non-empty and free of
/// delimiter characters, the fully rendered text has no placeholder
/// syntax left: scanning it finds no occurrences and no names.
pub proof fn lemma_rendered_has_no_placeholders(s: Seq<char>, m: Map<Seq<char>, Seq<char>>)
    requires
        forall|n: Seq<char>| names_set(s).contains(n) ==> clean_value(#[trigger] m[n]),
    ensures
        matches_from(rendered(s, m), 0) == Seq::<(int, int)>::empty(),
        names_set(rendered(s, m)) == Set::<Seq<char>>::empty(),
{
    assert forall|n: Seq<char>|
        names_from(s, 0).contains(n) implies clean_value(#[trigger] m[n]) by {
        assert(names_set(s).contains(n));
    }
    lemma_render_no_syntax(s, m, 0);
    lemma_no_match_starts_empty(rendered(s, m), 0);
    assert(match_names(rendered(s, m)) =~= Seq::<Seq<char>>::empty());
    assert(names_set(rendered(s, m)) =~= Set::<Seq<char>>::empty());
}

/// The full text of an occurrence is its name wrapped in the delimiters.
pub proof fn lemma_match_text(s: Seq<char>, i: int, k: int)
    requires
        match_at(s, i, k),
    ensures
        s.subrange(i, k + 2) == delimited(s.subrange(i + 2, k)),
{
    assert(s.subrange(i, k + 2) =~= delimited(s.subrange(i + 2, k)));
}

/// The first `j` entries of `names` with every repetition of an earlier
/// entry dropped: the distinct values in order of first occurrence.
pub open spec fn dedup_first(names: Seq<Seq<char>>, j: int) -> Seq<Seq<char>>
    decreases j,
{
    if j <= 0 {
        Seq::empty()
    } else {
        let d = dedup_first(names, j - 1);
        if d.contains(names[j - 1]) {
            d
        } else {
            d.push(names[j - 1])
        }
    }
}

/// Deduplication keeps no repetitions and keeps exactly the values of the
/// prefix it covers.
pub proof fn lemma_dedup_first_props(names: Seq<Seq<char>>, j: int)
    requires
        0 <= j <= names.len(),
    ensures
        dedup_first(names, j).no_duplicates(),
        dedup_first(names, j).to_set() == names.take(j).to_set(),
    decreases j,
{
    if j > 0 {
        lemma_dedup_first_props(names, j - 1);
        let d = dedup_first(names, j - 1);
        let dj = dedup_first(names, j);
        assert forall|x: Seq<char>| dj.contains(x) <==> names.take(j).contains(x) by {
            if dj.contains(x) {
                if d.contains(x) {
                    assert(d.to_set().contains(x));
                    assert(names.take(j - 1).to_set().contains(x));
                    assert(names.take(j - 1).contains(x));
                    let i = choose|i: int|
                        0 <= i < names.take(j - 1).len() && #[trigger] names.take(j - 1)[i] == x;
                    assert(names.take(j)[i] == x);
                } else {
                    let i = choose|i: int| 0 <= i < dj.len() && #[trigger] dj[i] == x;
                    assert(x == names[j - 1]);
                    assert(names.take(j)[j - 1] == x);
                }
            }
            if names.take(j).contains(x) {
                let i = choose|i: int|
                    0 <= i < names.take(j).len() && #[trigger] names.take(j)[i] == x;
                if i < j - 1 {
                    assert(names.take(j - 1)[i] == x);
                    assert(names.take(j - 1).contains(x));
                    assert(names.take(j - 1).to_set().contains(x));
                    assert(d.to_set().contains(x));
                    assert(d.contains(x));
                    if !d.contains(names[j - 1]) {
                        let ii = choose|ii: int| 0 <= ii < d.len() && #[trigger] d[ii] == x;
                        assert(dj[ii] == x);
                    }
                } else {
                    assert(x == names[j - 1]);
                    if d.contains(x) {
                        let ii = choose|ii: int| 0 <= ii < d.len() && #[trigger] d[ii] == x;
                        assert(dj[ii] == x);
                    } else {
                        assert(dj[dj.len() - 1] == x);
                    }
                }
            }
        }
        assert(dedup_first(names, j).to_set() =~= names.take(j).to_set());
        if !d.contains(names[j - 1]) {
            assert forall|a: int, b: int|
                0 <= a < dj.len() && 0 <= b < dj.len() && a != b implies dj[a] != dj[b] by {
                if a < dj.len() - 1 && b < dj.len() - 1 {
                    assert(d[a] == dj[a] && d[b] == dj[b]);
                } else if a == dj.len() - 1 && b < dj.len() - 1 {
                    assert(d.contains(dj[b]) ==> dj[a] != dj[b]);
                    assert(d[b] == dj[b]);
                } else if b == dj.len() - 1 && a < dj.len() - 1 {
                    assert(d[a] == dj[a]);
                }
            }
        }
    }
}

/// The distinct placeholder names of a text, in order of first occurrence.
pub open spec fn distinct_names(s: Seq<char>) -> Seq<Seq<char>> {
    dedup_first(match_names(s), match_names(s).len() as int)
}

/// `distinct_names` is duplicate-free and covers exactly the name set.
pub proof fn lemma_distinct_names_props(s: Seq<char>)
    ensures
        distinct_names(s).no_duplicates(),
        distinct_names(s).to_set() == names_set(s),
{
    let names = match_names(s);
    lemma_dedup_first_props(names, names.len() as int);
    assert(names.take(names.len() as int) =~= names);
}

/// The `(start, close)` pairs of a vector of positions, as mathematical
/// integers.
pub open spec fn pair_views(ms: Seq<(usize, usize)>) -> Seq<(int, int)> {
    ms.map_values(|m: (usize, usize)| (m.0 as int, m.1 as int))
}

/// Searches for the closing delimiter of an occurrence opening at `p`.
fn find_match_end(s: &str, p: usize, n: usize) -> (r: Option<usize>)
    requires
        n == s@.len(),
        p + 4 <= n,
        open_at(s@, p as int),
    ensures
        match r {
            Some(k) => match_at(s@, p as int, k as int),
            None => !match_starts_at(s@, p as int),
        },
{
    let mut k: usize = p + 2;
    while k <= n - 2
        invariant
            n == s@.len(),
            p + 4 <= n,
            p + 2 <= k <= n,
            open_at(s@, p as int),
            forall|m: int| p + 2 <= m < k ==> s@[m] != '\n',
            forall|m: int| p + 2 <= m < k ==> !close_at(s@, m),
        decreases n - k,
    {
        let c = s.get_char(k);
        if c == ']' && s.get_char(k + 1) == '}' {
            assert(match_at(s@, p as int, k as int));
            return Some(k);
        }
        if c == '\n' {
            proof {
                if match_starts_at(s@, p as int) {
                    let kk = choose|kk: int| match_at(s@, p as int, kk);
                    assert(match_at(s@, p as int, kk));
                    if kk < k {
                        assert(!close_at(s@, kk));
                    } else {
                        assert(s@[k as int] == '\n');
                    }
                }
            }
            return None;
        }
        k = k + 1;
    }
    proof {
        if match_starts_at(s@, p as int) {
            let kk = choose|kk: int| match_at(s@, p as int, kk);
            assert(match_at(s@, p as int, kk));
            assert(kk + 2 <= n);
            assert(!close_at(s@, kk));
        }
    }
    None
}

/// Scans the whole text and returns every placeholder occurrence, in text
/// order, as `(start, close)` position pairs.
pub fn scan_matches(s: &str) -> (ms: Vec<(usize, usize)>)
    ensures
        pair_views(ms@) == matches_from(s@, 0),
        ms@.len() * 4 <= s@.len(),
        s@.len() <= usize::MAX,
        forall|j: int|
            0 <= j < ms@.len() ==> match_at(s@, #[trigger] ms@[j].0 as int, ms@[j].1 as int),
{
    let n = s.unicode_len();
    let mut ms: Vec<(usize, usize)> = Vec::new();
    if n < 4 {
        assert(matches_from(s@, 0) == Seq::<(int, int)>::empty());
        assert(pair_views(ms@) =~= matches_from(s@, 0));
        return ms;
    }
    let mut p: usize = 0;
    while p <= n - 4
        invariant
            n == s@.len(),
            4 <= n,
            p <= n,
            matches_from(s@, 0) == pair_views(ms@) + matches_from(s@, p as int),
            ms@.len() * 4 <= p,
            forall|j: int|
                0 <= j < ms@.len() ==> match_at(s@, #[trigger] ms@[j].0 as int, ms@[j].1 as int),
        decreases n - p,
    {
        let ghost prev = ms@;
        let ghost pp = p as int;
        if s.get_char(p) == '{' && s.get_char(p + 1) == '[' {
            match find_match_end(s, p, n) {
                Some(k) => {
                    proof {
                        lemma_close_unique(s@, pp, k as int, close_of(s@, pp));
                        assert(matches_from(s@, pp) == seq![(pp, k as int)] + matches_from(
                            s@,
                            k as int + 2,
                        ));
                    }
                    ms.push((p, k));
                    p = k + 2;
                    proof {
                        assert(pair_views(ms@) =~= pair_views(prev).push((pp, k as int)));
                        assert(pair_views(prev) + (seq![(pp, k as int)] + matches_from(
                            s@,
                            p as int,
                        )) =~= pair_views(ms@) + matches_from(s@, p as int));
                    }
                },
                None => {
                    assert(matches_from(s@, pp) == matches_from(s@, pp + 1));
                    p = p + 1;
                },
            }
        } else {
            proof {
                if match_starts_at(s@, pp) {
                    let kk = choose|kk: int| match_at(s@, pp, kk);
                    assert(match_at(s@, pp, kk));
                }
                assert(matches_from(s@, pp) == matches_from(s@, pp + 1));
            }
            p = p + 1;
        }
    }
    assert(matches_from(s@, p as int) == Seq::<(int, int)>::empty());
    assert(pair_views(ms@) =~= pair_views(ms@) + matches_from(s@, p as int));
    ms
}

/// The views of a vector of strings.
pub open spec fn string_views(v: Seq<String>) -> Seq<Seq<char>> {
    v.map_values(|x: String| x@)
}

/// The text `s` from position `p` on with every placeholder occurrence
/// replaced by its value under `vals`, and all other text kept verbatim.
pub open spec fn render_from(s: Seq<char>, p: int, vals: Map<Seq<char>, Seq<char>>) -> Seq<char>
    decreases s.len() - p
        when 0 <= p <= s.len()
        via render_from_decreases
{
    if p + 4 > s.len() {
        s.subrange(p, s.len() as int)
    } else if match_starts_at(s, p) {
        vals[name_of(s, (p, close_of(s, p)))] + render_from(s, close_of(s, p) + 2, vals)
    } else {
        seq![s[p]] + render_from(s, p + 1, vals)
    }
}

#[via_fn]
proof fn render_from_decreases(s: Seq<char>, p: int, vals: Map<Seq<char>, Seq<char>>) {
    if 0 <= p && p + 4 <= s.len() && match_starts_at(s, p) {
        let k = choose|k: int| match_at(s, p, k);
        assert(match_at(s, p, k));
        lemma_close_unique(s, p, k, close_of(s, p));
    }
}

/// The whole text with every placeholder occurrence replaced under `vals`.
pub open spec fn rendered(s: Seq<char>, vals: Map<Seq<char>, Seq<char>>) -> Seq<char> {
    render_from(s, 0, vals)
}

/// Unfolds the match list at an occurrence.
pub proof fn lemma_matches_from_match(s: Seq<char>, p: int, k: int)
    requires
        match_at(s, p, k),
    ensures
        matches_from(s, p) == seq![(p, k)] + matches_from(s, k + 2),
{
    assert(match_starts_at(s, p));
    lemma_close_unique(s, p, k, close_of(s, p));
}

/// An empty match list means no occurrence starts anywhere from `p` on.
pub proof fn lemma_matches_from_empty(s: Seq<char>, p: int, q: int)
    requires
        0 <= p <= q,
        matches_from(s, p).len() == 0,
    ensures
        !match_starts_at(s, q),
    decreases q - p,
{
    if match_starts_at(s, q) {
        let k = choose|k: int| match_at(s, q, k);
        assert(match_at(s, q, k));
        if p + 4 > s.len() {
            assert(k + 2 <= s.len() && q + 2 <= k);
        } else if match_starts_at(s, p) {
            lemma_matches_from_match(s, p, close_of(s, p));
        } else {
            lemma_matches_from_empty(s, p + 1, q);
        }
    }
}

/// The head of a non-empty match list: it is the first occurrence at or
/// after `p`, and the tail is the match list after its span.
pub proof fn lemma_matches_from_head(s: Seq<char>, p: int)
    requires
        0 <= p,
        matches_from(s, p).len() > 0,
    ensures
        p <= matches_from(s, p)[0].0,
        match_at(s, matches_from(s, p)[0].0, matches_from(s, p)[0].1),
        forall|q: int| p <= q < matches_from(s, p)[0].0 ==> !match_starts_at(s, q),
        matches_from(s, p).skip(1) == matches_from(s, matches_from(s, p)[0].1 + 2),
    decreases s.len() - p,
{
    if p + 4 > s.len() {
        assert(false);
    } else if match_starts_at(s, p) {
        let k = choose|k: int| match_at(s, p, k);
        assert(match_at(s, p, k));
        lemma_close_unique(s, p, k, close_of(s, p));
        assert(matches_from(s, p) == seq![(p, k)] + matches_from(s, k + 2));
        assert(matches_from(s, p)[0] == (p, k));
        assert((seq![(p, k)] + matches_from(s, k + 2)).skip(1) =~= matches_from(s, k + 2));
    } else {
        assert(matches_from(s, p) == matches_from(s, p + 1));
        lemma_matches_from_head(s, p + 1);
    }
}

/// Rendering across a region free of occurrence starts keeps it verbatim.
pub proof fn lemma_render_skip(s: Seq<char>, p: int, q: int, vals: Map<Seq<char>, Seq<char>>)
    requires
        0 <= p <= q <= s.len(),
        forall|i: int| p <= i < q ==> !match_starts_at(s, i),
    ensures
        render_from(s, p, vals) == s.subrange(p, q) + render_from(s, q, vals),
    decreases q - p,
{
    if p == q {
        assert(s.subrange(p, q) + render_from(s, q, vals) =~= render_from(s, q, vals));
    } else if p + 4 > s.len() {
        assert(render_from(s, p, vals) == s.subrange(p, s.len() as int));
        assert(render_from(s, q, vals) == s.subrange(q, s.len() as int));
        assert(s.subrange(p, q) + s.subrange(q, s.len() as int) =~= s.subrange(p, s.len() as int));
    } else {
        assert(render_from(s, p, vals) == seq![s[p]] + render_from(s, p + 1, vals));
        lemma_render_skip(s, p + 1, q, vals);
        assert(seq![s[p]] + (s.subrange(p + 1, q) + render_from(s, q, vals)) =~= s.subrange(p, q)
            + render_from(s, q, vals));
    }
}

/// Unfolds the rendering at an occurrence: the occurrence is replaced by
/// its value under `vals`.
pub proof fn lemma_render_match(s: Seq<char>, p: int, k: int, vals: Map<Seq<char>, Seq<char>>)
    requires
        match_at(s, p, k),
    ensures
        render_from(s, p, vals) == vals[s.subrange(p + 2, k)] + render_from(s, k + 2, vals),
{
    assert(match_starts_at(s, p));
    lemma_close_unique(s, p, k, close_of(s, p));
}

/// The mapping that a vector of `(key, value)` pairs denotes; an earlier
/// pair shadows a later pair with the same key.
pub open spec fn pairs_to_map(ps: Seq<(String, String)>) -> Map<Seq<char>, Seq<char>>
    decreases ps.len(),
{
    if ps.len() == 0 {
        Map::empty()
    } else {
        pairs_to_map(ps.drop_first()).insert(ps.first().0@, ps.first().1@)
    }
}

/// The domain of the denoted mapping is exactly the set of key views.
pub proof fn lemma_pairs_to_map_dom(ps: Seq<(String, String)>, x: Seq<char>)
    ensures
        pairs_to_map(ps).dom().contains(x) <==> exists|j: int|
            0 <= j < ps.len() && (#[trigger] ps[j]).0@ == x,
    decreases ps.len(),
{
    if ps.len() > 0 {
        lemma_pairs_to_map_dom(ps.drop_first(), x);
        if ps.first().0@ == x {
            assert(ps[0].0@ == x);
        } else if pairs_to_map(ps).dom().contains(x) {
            let j = choose|j: int|
                0 <= j < ps.drop_first().len() && (#[trigger] ps.drop_first()[j]).0@ == x;
            assert(ps[j + 1].0@ == x);
        } else if exists|j: int| 0 <= j < ps.len() && (#[trigger] ps[j]).0@ == x {
            let j = choose|j: int| 0 <= j < ps.len() && (#[trigger] ps[j]).0@ == x;
            assert(ps.drop_first()[j - 1].0@ == x);
        }
    }
}

/// The denoted mapping sends a key to the value of its first pair.
pub proof fn lemma_pairs_to_map_first(ps: Seq<(String, String)>, j: int)
    requires
        0 <= j < ps.len(),
        forall|i: int| 0 <= i < j ==> (#[trigger] ps[i]).0@ != ps[j].0@,
    ensures
        pairs_to_map(ps).dom().contains(ps[j].0@),
        pairs_to_map(ps)[ps[j].0@] == ps[j].1@,
    decreases ps.len(),
{
    if j == 0 {
    } else {
        assert(ps[0].0@ != ps[j].0@);
        assert(forall|i: int|
            0 <= i < j - 1 ==> (#[trigger] ps.drop_first()[i]) == ps[i + 1]);
        lemma_pairs_to_map_first(ps.drop_first(), j - 1);
        assert(ps.drop_first()[j - 1] == ps[j]);
    }
}

/// Looks a key up in a pair list; the first pair with that key wins.
pub(crate) fn lookup_first(mapping: &Vec<(String, String)>, x: &String) -> (r: Option<String>)
    ensures
        match r {
            Some(v) => pairs_to_map(mapping@).dom().contains(x@) && v@ == pairs_to_map(mapping@)[x@],
            None => !pairs_to_map(mapping@).dom().contains(x@),
        },
{
    let mut j: usize = 0;
    while j < mapping.len()
        invariant
            j <= mapping@.len(),
            forall|i: int| 0 <= i < j ==> (#[trigger] mapping@[i]).0@ != x@,
        decreases mapping@.len() - j,
    {
        if mapping[j].0 == *x {
            proof {
                lemma_pairs_to_map_first(mapping@, j as int);
            }
            return Some(mapping[j].1.clone());
        }
        j = j + 1;
    }
    proof {
        lemma_pairs_to_map_dom(mapping@, x@);
    }
    None
}

/// Replaces every placeholder occurrence of `s` with its value under
/// `mapping`; every occurring name must have a value. All remaining text
/// is kept verbatim.
pub fn replace_all_placeholders(s: &str, mapping: &Vec<(String, String)>) -> (r: String)
    requires
        forall|n: Seq<char>|
            names_set(s@).contains(n) ==> pairs_to_map(mapping@).dom().contains(n),
    ensures
        r@ == rendered(s@, pairs_to_map(mapping@)),
{
    let ghost m = pairs_to_map(mapping@);
    let ms = scan_matches(s);
    let n = s.unicode_len();
    let mut out = String::new();
    let mut pos: usize = 0;
    let mut idx: usize = 0;
    while idx < ms.len()
        invariant
            n == s@.len(),
            idx <= ms@.len(),
            pos <= n,
            m == pairs_to_map(mapping@),
            forall|x: Seq<char>| names_set(s@).contains(x) ==> m.dom().contains(x),
            pair_views(ms@) == matches_from(s@, 0),
            forall|j: int|
                0 <= j < ms@.len() ==> match_at(s@, #[trigger] ms@[j].0 as int, ms@[j].1 as int),
            matches_from(s@, pos as int) == pair_views(ms@).skip(idx as int),
            out@ + render_from(s@, pos as int, m) == render_from(s@, 0, m),
        decreases ms@.len() - idx,
    {
        let (i, k) = ms[idx];
        proof {
            assert(pair_views(ms@).skip(idx as int)[0] == (i as int, k as int));
            lemma_matches_from_head(s@, pos as int);
            lemma_render_skip(s@, pos as int, i as int, m);
            lemma_render_match(s@, i as int, k as int, m);
            assert(match_names(s@)[idx as int] == name_of(s@, (i as int, k as int)));
            assert(match_names(s@).contains(s@.subrange(i + 2, k as int)));
        }
        out.append(s.substring_char(pos, i));
        let name = s.substring_char(i + 2, k).to_owned();
        let looked_up = lookup_first(mapping, &name);
        let ghost out_before = out@;
        match looked_up {
            Some(v) => {
                out.append(v.as_str());
                assert(out@ == out_before + m[name@]);
            },
            None => {
                assert(false);
            },
        }
        proof {
            assert(out@ + render_from(s@, k as int + 2, m) =~= render_from(s@, 0, m));
            assert(pair_views(ms@).skip(idx as int).skip(1) =~= pair_views(ms@).skip(
                idx as int + 1,
            ));
        }
        pos = k + 2;
        idx = idx + 1;
    }
    proof {
        assert(pair_views(ms@).skip(idx as int) =~= Seq::<(int, int)>::empty());
        assert forall|q: int| pos <= q implies !match_starts_at(s@, q) by {
            lemma_matches_from_empty(s@, pos as int, q);
        }
        lemma_render_skip(s@, pos as int, n as int, m);
        assert(render_from(s@, n as int, m) =~= Seq::<char>::empty());
    }
    let ghost out_before_tail = out@;
    out.append(s.substring_char(pos, n));
    proof {
        assert(out@ =~= out_before_tail + s@.subrange(pos as int, n as int));
        assert(out@ =~= render_from(s@, 0, m));
    }
    out
}

/// Copies a vector of strings, keeping every element's text.
pub(crate) fn clone_string_vec(v: &Vec<String>) -> (r: Vec<String>)
    ensures
        r@ == v@,
{
    let mut r: Vec<String> = Vec::new();
    let mut j: usize = 0;
    while j < v.len()
        invariant
            j <= v@.len(),
            r@ =~= v@.take(j as int),
        decreases v@.len() - j,
    {
        r.push(v[j].clone());
        assert(r@ =~= v@.take(j as int + 1));
        j = j + 1;
    }
    assert(r@ =~= v@);
    r
}

/// The first position of `x` in `v`, if any.
pub(crate) fn find_name_index(v: &Vec<String>, x: &String) -> (r: Option<usize>)
    ensures
        match r {
            Some(j) => j < v@.len() && string_views(v@)[j as int] == x@,
            None => !string_views(v@).contains(x@),
        },
{
    let mut j: usize = 0;
    while j < v.len()
        invariant
            j <= v@.len(),
            forall|i: int| 0 <= i < j ==> string_views(v@)[i] != x@,
        decreases v@.len() - j,
    {
        if v[j] == *x {
            assert(string_views(v@)[j as int] == x@);
            return Some(j);
        }
        j = j + 1;
    }
    assert(forall|i: int| 0 <= i < v@.len() ==> string_views(v@)[i] != x@);
    None
}

/// Whether `v` holds a string equal to `x`.
pub(crate) fn vec_contains_str(v: &Vec<String>, x: &String) -> (b: bool)
    ensures
        b == string_views(v@).contains(x@),
{
    let mut j: usize = 0;
    while j < v.len()
        invariant
            j <= v@.len(),
            forall|i: int| 0 <= i < j ==> string_views(v@)[i] != x@,
        decreases v@.len() - j,
    {
        if v[j] == *x {
            assert(string_views(v@)[j as int] == x@);
            return true;
        }
        j = j + 1;
    }
    assert(forall|i: int| 0 <= i < v@.len() ==> string_views(v@)[i] != x@);
    false
}

/// Extracts the distinct placeholder names of a text, in order of first
/// occurrence.
pub fn get_placeholders(s: &str) -> (r: Vec<String>)
    ensures
        string_views(r@) == distinct_names(s@),
        string_views(r@).no_duplicates(),
        string_views(r@).to_set() == names_set(s@),
{
    let ms = scan_matches(s);
    let mut r: Vec<String> = Vec::new();
    let mut idx: usize = 0;
    while idx < ms.len()
        invariant
            pair_views(ms@) == matches_from(s@, 0),
            forall|j: int|
                0 <= j < ms@.len() ==> match_at(s@, #[trigger] ms@[j].0 as int, ms@[j].1 as int),
            idx <= ms@.len(),
            string_views(r@) == dedup_first(match_names(s@), idx as int),
        decreases ms@.len() - idx,
    {
        let ghost prev = r@;
        let (i, k) = ms[idx];
        assert(match_at(s@, i as int, k as int));
        let name = s.substring_char(i + 2, k).to_owned();
        assert(name@ == name_of(s@, pair_views(ms@)[idx as int]));
        assert(name@ == match_names(s@)[idx as int]);
        if !vec_contains_str(&r, &name) {
            let ghost nv = name@;
            r.push(name);
            assert(string_views(r@) =~= string_views(prev).push(nv));
        }
        idx = idx + 1;
    }
    proof {
        assert(match_names(s@).len() == ms@.len());
        lemma_distinct_names_props(s@);
    }
    r
}

} // verus!
