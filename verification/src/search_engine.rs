//! Keyword search over the loaded applications.
//!
//! A keyword is matched against each comma-separated search name of an
//! application. The match quality ([`Rank`]) orders the results: exact match,
//! then prefix match, then contiguous substring, then fuzzy (subsequence)
//! match; within a level the earlier start and then the shorter span win.
use vstd::prelude::*;

use crate::app_loader::{app_fields_match, entry_lines, entry_names};
use crate::model::AppEntry;
use crate::text::{
    join, lemma_split_char_join,
    ascii_lower, is_ascii_text, is_white_space, lemma_ascii_lower_trim, lemma_trim_ignores_white_space_around,
    lemma_trim_keeps_ascii, chars_eq, chars_of, find, find_exec, lemma_find_is_first, lowercase, occurs_at, occurs_at_exec,
    split_char, split_char_exec, to_lowercase, trim, trim_chars, trim_str, views,
};

verus! {

/// Match quality: `(level, start, span)`; smaller is better.
pub type Rank = (u8, usize, usize);

// ---------------------------------------------------------------------------
// Specification of a single match
// ---------------------------------------------------------------------------

/// `idx` places the characters of `p`, in order, at strictly increasing
/// positions of `t`.
pub open spec fn is_embedding(t: Seq<char>, p: Seq<char>, idx: Seq<int>) -> bool {
    &&& idx.len() == p.len()
    &&& forall|k: int| 0 <= k < idx.len() ==> 0 <= #[trigger] idx[k] < t.len() && t[idx[k]] == p[k]
    &&& forall|k: int, l: int| 0 <= k < l < idx.len() ==> #[trigger] idx[k] < #[trigger] idx[l]
}

/// `p` is a (not necessarily contiguous) subsequence of `t`.
pub open spec fn is_subsequence(p: Seq<char>, t: Seq<char>) -> bool {
    exists|idx: Seq<int>| is_embedding(t, p, idx)
}

/// `f` is the first position of `c` in `t`.
pub open spec fn is_first_index(t: Seq<char>, c: char, f: int) -> bool {
    0 <= f < t.len() && t[f] == c && forall|j: int| 0 <= j < f ==> t[j] != c
}

/// `e` is the smallest position at which an embedding of the non-empty `p`
/// into `t` can end.
pub open spec fn is_tightest_end(t: Seq<char>, p: Seq<char>, e: int) -> bool {
    &&& p.len() > 0
    &&& exists|idx: Seq<int>| is_embedding(t, p, idx) && idx[p.len() - 1] == e
    &&& forall|idx: Seq<int>| is_embedding(t, p, idx) ==> e <= idx[p.len() - 1]
}

/// First position of `c` in `t`.
pub open spec fn first_index(t: Seq<char>, c: char) -> int {
    choose|f: int| is_first_index(t, c, f)
}

/// Smallest end of an embedding of `p` into `t`.
pub open spec fn tightest_end(t: Seq<char>, p: Seq<char>) -> int {
    choose|e: int| is_tightest_end(t, p, e)
}

/// The match quality of `pattern` against `text` (case-sensitive):
/// `(0, 0, n)` for equality, `(1, 0, n)` for a prefix, `(2, i, n)` for a first
/// occurrence at `i`, `(3, f, e - f + 1)` for a subsequence whose first
/// character first occurs at `f` and whose tightest embedding ends at `e`,
/// and no rank otherwise or for an empty pattern (`n` is the pattern length).
pub open spec fn match_rank_spec(text: Seq<char>, pattern: Seq<char>) -> Option<Rank> {
    let n: usize = pattern.len() as usize;
    if pattern.len() == 0 {
        None
    } else if text == pattern {
        Some((0u8, 0usize, n))
    } else if pattern.is_prefix_of(text) {
        Some((1u8, 0usize, n))
    } else if find(text, pattern) is Some {
        Some((2u8, find(text, pattern)->0 as usize, n))
    } else if is_subsequence(pattern, text) {
        let f: int = first_index(text, pattern[0]);
        Some((3u8, f as usize, (tightest_end(text, pattern) - f + 1) as usize))
    } else {
        None
    }
}

// ---------------------------------------------------------------------------
// Lemmas about single matches
// ---------------------------------------------------------------------------

/// The first `n` positions of an embedding embed the first `n` characters.
pub proof fn lemma_embedding_prefix(t: Seq<char>, p: Seq<char>, idx: Seq<int>, n: int)
    requires
        is_embedding(t, p, idx),
        0 <= n <= p.len(),
    ensures
        is_embedding(t, p.take(n), idx.take(n)),
{
    assert forall|k: int, l: int| 0 <= k < l < n implies #[trigger] idx.take(n)[k]
        < #[trigger] idx.take(n)[l] by {
        assert(idx[k] < idx[l]);
    }
}

/// A contiguous occurrence is in particular an embedding.
pub proof fn lemma_occurrence_embeds(t: Seq<char>, p: Seq<char>, i: int)
    requires
        occurs_at(t, p, i),
    ensures
        is_subsequence(p, t),
{
    let idx = Seq::new(p.len(), |k: int| i + k);
    assert forall|k: int| 0 <= k < idx.len() implies 0 <= #[trigger] idx[k] < t.len() && t[idx[k]]
        == p[k] by {
        assert(t.subrange(i, i + p.len())[k] == t[i + k]);
    }
    assert(is_embedding(t, p, idx));
}

/// The first index of a character is unique.
pub proof fn lemma_first_index_unique(t: Seq<char>, c: char, f: int, g: int)
    requires
        is_first_index(t, c, f),
        is_first_index(t, c, g),
    ensures
        f == g,
{
}

/// The tightest end is unique.
pub proof fn lemma_tightest_end_unique(t: Seq<char>, p: Seq<char>, e: int, d: int)
    requires
        is_tightest_end(t, p, e),
        is_tightest_end(t, p, d),
    ensures
        e == d,
{
    let ie = choose|idx: Seq<int>| is_embedding(t, p, idx) && idx[p.len() - 1] == e;
    let id = choose|idx: Seq<int>| is_embedding(t, p, idx) && idx[p.len() - 1] == d;
    assert(e <= id[p.len() - 1]);
    assert(d <= ie[p.len() - 1]);
}

// ---------------------------------------------------------------------------
// Executable matching
// ---------------------------------------------------------------------------

/// The fuzzy (subsequence) level of [`match_rank_spec`], by one greedy scan.
fn fuzzy_rank(t: &Vec<char>, p: &Vec<char>) -> (r: Option<Rank>)
    requires
        p.len() > 0,
    ensures
        is_subsequence(p@, t@) ==> r == Some(
            (
                3u8,
                first_index(t@, p@[0]) as usize,
                (tightest_end(t@, p@) - first_index(t@, p@[0]) + 1) as usize,
            ),
        ),
        !is_subsequence(p@, t@) ==> r is None,
{
    let mut j: usize = 0;
    let mut first: usize = 0;
    let mut i: usize = 0;
    let ghost mut pos: Seq<int> = Seq::empty();
    while i < t.len()
        invariant
            0 <= j < p.len(),
            i <= t.len(),
            pos.len() == j,
            is_embedding(t@, p@.take(j as int), pos),
            forall|k: int| 0 <= k < j ==> #[trigger] pos[k] < i,
            j > 0 ==> first == pos[0] && is_first_index(t@, p@[0], first as int),
            j == 0 ==> forall|k: int| 0 <= k < i ==> t@[k] != p@[0],
            forall|idx: Seq<int>| #[trigger]
                is_embedding(t@, p@.take(j + 1), idx) ==> i <= idx[j as int],
        decreases t.len() - i,
    {
        if t[i] == p[j] {
            if j == 0 {
                first = i;
            }
            let ghost old_pos = pos;
            proof {
                pos = pos.push(i as int);
                assert forall|k: int, l: int| 0 <= k < l < pos.len() implies #[trigger] pos[k]
                    < #[trigger] pos[l] by {
                    if l < old_pos.len() {
                        assert(old_pos[k] < old_pos[l]);
                    }
                }
                assert forall|k: int| 0 <= k < pos.len() implies 0 <= #[trigger] pos[k] < t@.len()
                    && t@[pos[k]] == p@.take(j + 1)[k] by {
                    if k < old_pos.len() {
                        assert(p@.take(j as int)[k] == p@[k]);
                    }
                }
                assert(is_embedding(t@, p@.take(j + 1), pos));
            }
            if j + 1 == p.len() {
                proof {
                    assert(p@.take(j + 1) =~= p@);
                    assert(is_tightest_end(t@, p@, i as int));
                    lemma_tightest_end_unique(t@, p@, i as int, tightest_end(t@, p@));
                    assert(is_first_index(t@, p@[0], first as int));
                    lemma_first_index_unique(t@, p@[0], first as int, first_index(t@, p@[0]));
                }
                return Some((3u8, first, i - first + 1));
            }
            proof {
                assert forall|idx: Seq<int>| #[trigger]
                    is_embedding(t@, p@.take((j + 1) + 1), idx) implies i + 1 <= idx[j + 1] by {
                    lemma_embedding_prefix(t@, p@.take((j + 1) + 1), idx, j + 1);
                    assert(p@.take((j + 1) + 1).take(j + 1) =~= p@.take(j + 1));
                    assert(idx.take(j + 1)[j as int] == idx[j as int]);
                    assert(idx[j as int] < idx[j + 1]);
                }
            }
            j = j + 1;
        } else {
            proof {
                assert forall|idx: Seq<int>| #[trigger]
                    is_embedding(t@, p@.take(j + 1), idx) implies i + 1 <= idx[j as int] by {
                    assert(i <= idx[j as int]);
                    assert(t@[idx[j as int]] == p@.take(j + 1)[j as int]);
                    assert(p@.take(j + 1)[j as int] == p@[j as int]);
                }
            }
        }
        i = i + 1;
    }
    proof {
        assert forall|idx: Seq<int>| !is_embedding(t@, p@, idx) by {
            if is_embedding(t@, p@, idx) {
                lemma_embedding_prefix(t@, p@, idx, j + 1);
                assert(idx.take(j + 1)[j as int] == idx[j as int]);
            }
        }
    }
    None
}

/// Match quality of `p` against `t` (character vectors).
pub fn match_rank_chars(t: &Vec<char>, p: &Vec<char>) -> (r: Option<Rank>)
    ensures
        r == match_rank_spec(t@, p@),
{
    if p.len() == 0 {
        return None;
    }
    if chars_eq(t, p) {
        return Some((0u8, 0usize, p.len()));
    }
    if occurs_at_exec(t, p, 0) {
        assert(t@.skip(0) =~= t@);
        return Some((1u8, 0usize, p.len()));
    }
    assert(t@.skip(0) =~= t@);
    match find_exec(t, p) {
        Some(i) => Some((2u8, i, p.len())),
        None => fuzzy_rank(t, p),
    }
}


// ---------------------------------------------------------------------------
// Ranking whole applications
// ---------------------------------------------------------------------------

/// `a` is at least as good a match as `b` (lexicographic order).
pub open spec fn rank_le(a: Rank, b: Rank) -> bool {
    a.0 < b.0 || (a.0 == b.0 && (a.1 < b.1 || (a.1 == b.1 && a.2 <= b.2)))
}

/// `a` is a strictly better match than `b`.
pub open spec fn rank_lt(a: Rank, b: Rank) -> bool {
    rank_le(a, b) && a != b
}

/// The better of two optional ranks (an absent rank loses).
pub open spec fn better(a: Option<Rank>, b: Option<Rank>) -> Option<Rank> {
    match (a, b) {
        (None, _) => b,
        (_, None) => a,
        (Some(x), Some(y)) => if rank_le(x, y) {
            a
        } else {
            b
        },
    }
}

/// The best rank of `pattern` against any of the (trimmed) names in `names`.
pub open spec fn best_rank(names: Seq<Seq<char>>, pattern: Seq<char>) -> Option<Rank>
    decreases names.len(),
{
    if names.len() == 0 {
        None
    } else {
        better(
            best_rank(names.drop_last(), pattern),
            match_rank_spec(trim(names.last()), pattern),
        )
    }
}

/// The rank of an application: the best rank over the comma-separated names
/// of its search key.
pub open spec fn app_rank(app: AppEntry, pattern: Seq<char>) -> Option<Rank> {
    best_rank(split_char(app.search_key@, ','), pattern)
}

/// Strict lexicographic order of character sequences by code point (the
/// order of `String`'s `Ord`, since UTF-8 preserves code point order).
pub open spec fn name_lt(a: Seq<char>, b: Seq<char>) -> bool
    decreases a.len(),
{
    if a.len() == 0 {
        b.len() > 0
    } else if b.len() == 0 {
        false
    } else if a[0] != b[0] {
        a[0] < b[0]
    } else {
        name_lt(a.drop_first(), b.drop_first())
    }
}

/// Among matching applications, the one at index `i` is listed before the
/// one at `j`: better rank first, then lower-cased name, then position in the list.
pub open spec fn listed_before(apps: Seq<AppEntry>, pattern: Seq<char>, i: int, j: int) -> bool {
    let ri = app_rank(apps[i], pattern)->0;
    let rj = app_rank(apps[j], pattern)->0;
    let ni = lowercase(apps[i].name@);
    let nj = lowercase(apps[j].name@);
    ||| rank_lt(ri, rj)
    ||| ri == rj && name_lt(ni, nj)
    ||| ri == rj && ni == nj && i < j
}

/// `order` lists the indices of exactly the matching applications, each once,
/// in [`listed_before`] order.
pub open spec fn is_search_order(apps: Seq<AppEntry>, pattern: Seq<char>, order: Seq<int>) -> bool {
    &&& forall|k: int|
        0 <= k < order.len() ==> 0 <= #[trigger] order[k] < apps.len() && app_rank(
            apps[order[k]],
            pattern,
        ) is Some
    &&& forall|i: int|
        0 <= i < apps.len() && (#[trigger] app_rank(apps[i], pattern)) is Some ==> order.contains(i)
    &&& forall|k: int, l: int|
        0 <= k < l < order.len() ==> listed_before(apps, pattern, #[trigger] order[k], #[trigger] order[l])
}

// ---------------------------------------------------------------------------
// Order lemmas
// ---------------------------------------------------------------------------

/// `name_lt` is irreflexive and asymmetric.
pub proof fn lemma_name_lt_asym(a: Seq<char>, b: Seq<char>)
    ensures
        name_lt(a, b) ==> !name_lt(b, a),
        !name_lt(a, a),
    decreases a.len(),
{
    if a.len() > 0 && b.len() > 0 && a[0] == b[0] {
        lemma_name_lt_asym(a.drop_first(), b.drop_first());
    }
    if a.len() > 0 {
        lemma_name_lt_asym(a.drop_first(), a.drop_first());
    }
}

/// `name_lt` is transitive.
pub proof fn lemma_name_lt_trans(a: Seq<char>, b: Seq<char>, c: Seq<char>)
    requires
        name_lt(a, b),
        name_lt(b, c),
    ensures
        name_lt(a, c),
    decreases a.len(),
{
    if a.len() > 0 && b.len() > 0 && c.len() > 0 && a[0] == b[0] && b[0] == c[0] {
        lemma_name_lt_trans(a.drop_first(), b.drop_first(), c.drop_first());
    }
}

/// `name_lt` is total on distinct sequences.
pub proof fn lemma_name_lt_total(a: Seq<char>, b: Seq<char>)
    ensures
        a == b || name_lt(a, b) || name_lt(b, a),
    decreases a.len(),
{
    if a.len() > 0 && b.len() > 0 && a[0] == b[0] {
        lemma_name_lt_total(a.drop_first(), b.drop_first());
        if a.drop_first() == b.drop_first() {
            assert(a =~= seq![a[0]] + a.drop_first());
            assert(b =~= seq![b[0]] + b.drop_first());
        }
    } else if a.len() == 0 && b.len() == 0 {
        assert(a =~= b);
    }
}

/// `listed_before` is a strict total order on matching applications.
pub proof fn lemma_listed_before_order(apps: Seq<AppEntry>, pattern: Seq<char>, i: int, j: int, k: int)
    ensures
        !listed_before(apps, pattern, i, i),
        listed_before(apps, pattern, i, j) ==> !listed_before(apps, pattern, j, i),
        i != j ==> listed_before(apps, pattern, i, j) || listed_before(apps, pattern, j, i),
        listed_before(apps, pattern, i, j) && listed_before(apps, pattern, j, k) ==> listed_before(
            apps,
            pattern,
            i,
            k,
        ),
{
    let ni = lowercase(apps[i].name@);
    let nj = lowercase(apps[j].name@);
    let nk = lowercase(apps[k].name@);
    lemma_name_lt_asym(ni, nj);
    lemma_name_lt_asym(nj, nk);
    lemma_name_lt_total(ni, nj);
    if name_lt(ni, nj) && name_lt(nj, nk) {
        lemma_name_lt_trans(ni, nj, nk);
    }
}

// ---------------------------------------------------------------------------
// Executable search
// ---------------------------------------------------------------------------

/// A matching application waiting to be ordered.
struct Candidate {
    index: usize,
    rank: Rank,
    name: Vec<char>,
}

/// Whether `a` is strictly better than `b`.
fn rank_lt_exec(a: Rank, b: Rank) -> (r: bool)
    ensures
        r == rank_lt(a, b),
{
    if a.0 != b.0 {
        a.0 < b.0
    } else if a.1 != b.1 {
        a.1 < b.1
    } else {
        a.2 < b.2
    }
}

/// Whether `a` and `b` are the same rank.
fn rank_eq_exec(a: Rank, b: Rank) -> (r: bool)
    ensures
        r == (a == b),
{
    a.0 == b.0 && a.1 == b.1 && a.2 == b.2
}

/// Whether `a` comes strictly before `b` by code point.
fn name_lt_exec(a: &Vec<char>, b: &Vec<char>) -> (r: bool)
    ensures
        r == name_lt(a@, b@),
{
    let mut i: usize = 0;
    assert(a@.skip(0) =~= a@);
    assert(b@.skip(0) =~= b@);
    while i < a.len() && i < b.len()
        invariant
            i <= a.len(),
            i <= b.len(),
            name_lt(a@, b@) == name_lt(a@.skip(i as int), b@.skip(i as int)),
        decreases a.len() - i,
    {
        if a[i] != b[i] {
            return a[i] < b[i];
        }
        assert(a@.skip(i as int).drop_first() =~= a@.skip(i + 1));
        assert(b@.skip(i as int).drop_first() =~= b@.skip(i + 1));
        i = i + 1;
    }
    i == a.len() && i < b.len()
}

/// The better of two optional ranks.
fn better_exec(a: Option<Rank>, b: Option<Rank>) -> (r: Option<Rank>)
    ensures
        r == better(a, b),
{
    match (a, b) {
        (None, _) => b,
        (_, None) => a,
        (Some(x), Some(y)) => {
            if rank_lt_exec(y, x) {
                b
            } else {
                a
            }
        },
    }
}

/// The rank of `app` for the (already lower-cased and trimmed) `pattern`.
fn app_rank_exec(app: &AppEntry, pattern: &Vec<char>) -> (r: Option<Rank>)
    ensures
        r == app_rank(*app, pattern@),
{
    let key = chars_of(app.search_key.as_str());
    let names = split_char_exec(&key, ',');
    let ghost ns = views(names@);
    let mut best: Option<Rank> = None;
    let mut i: usize = 0;
    assert(ns.take(0) =~= Seq::<Seq<char>>::empty());
    while i < names.len()
        invariant
            ns == views(names@),
            ns == split_char(app.search_key@, ','),
            i <= names.len(),
            best == best_rank(ns.take(i as int), pattern@),
        decreases names.len() - i,
    {
        let name = trim_chars(&names[i]);
        let r = match_rank_chars(&name, pattern);
        assert(ns.take(i + 1).drop_last() =~= ns.take(i as int));
        assert(ns.take(i + 1).last() == names@[i as int]@);
        best = better_exec(best, r);
        i = i + 1;
    }
    assert(ns.take(names.len() as int) =~= ns);
    best
}

/// Applications loaded once and searched by keyword.
pub struct SearchEngine {
    apps: Vec<AppEntry>,
}

impl View for SearchEngine {
    type V = Seq<AppEntry>;

    closed spec fn view(&self) -> Seq<AppEntry> {
        self.apps@
    }
}

impl Default for SearchEngine {
    fn default() -> (r: Self)
        ensures
            r@.len() == 0,
    {
        SearchEngine { apps: Vec::new() }
    }
}

impl SearchEngine {
    /// A search engine over `apps`.
    pub fn new(apps: Vec<AppEntry>) -> (r: Self)
        ensures
            r@ == apps@,
    {
        SearchEngine { apps }
    }

    /// The applications searched.
    pub fn get_apps(&self) -> (r: &Vec<AppEntry>)
        ensures
            r@ == self@,
    {
        &self.apps
    }

    /// Match quality of `pattern` against `text`; smaller is better.
    ///
    /// The levels, in order: exact match, prefix match, contiguous substring,
    /// fuzzy character sequence. The last two numbers are the start position
    /// and the span of the match, counted in characters.
    pub fn match_rank(text: &str, pattern: &str) -> (r: Option<Rank>)
        ensures
            r == match_rank_spec(text@, pattern@),
    {
        let t = chars_of(text);
        let p = chars_of(pattern);
        match_rank_chars(&t, &p)
    }

    /// Whether `pattern` matches `text` at all (case-sensitive).
    pub fn fuzzy_match(text: &str, pattern: &str) -> (r: bool)
        ensures
            r == (match_rank_spec(text@, pattern@) is Some),
            r == (pattern@.len() > 0 && is_subsequence(pattern@, text@)),
    {
        proof {
            lemma_match_iff_subsequence(text@, pattern@);
        }
        Self::match_rank(text, pattern).is_some()
    }

    /// The applications that match `keyword` (trimmed and lower-cased), best
    /// match first; equally good matches by lower-cased name, then in their
    /// list order.
    pub fn search(&self, keyword: &str) -> (r: Vec<&AppEntry>)
        ensures
            exists|order: Seq<int>|
                {
                    &&& is_search_order(self@, lowercase(trim(keyword@)), order)
                    &&& r@.len() == order.len()
                    &&& forall|k: int| 0 <= k < order.len() ==> *r@[k] == self@[order[k]]
                },
            is_ascii_text(keyword@) ==> exists|order: Seq<int>|
                {
                    &&& is_search_order(self@, ascii_lower(trim(keyword@)), order)
                    &&& r@.len() == order.len()
                    &&& forall|k: int| 0 <= k < order.len() ==> *r@[k] == self@[order[k]]
                },
    {
        proof {
            if is_ascii_text(keyword@) {
                lemma_trim_keeps_ascii(keyword@);
            }
        }
        let keyword_lower = to_lowercase(trim_str(keyword).as_str());
        let pattern = chars_of(keyword_lower.as_str());
        let ghost pat = pattern@;
        let ghost apps = self@;
        let mut sorted: Vec<Candidate> = Vec::new();
        let mut i: usize = 0;
        while i < self.apps.len()
            invariant
                apps == self.apps@,
                pat == pattern@,
                i <= self.apps.len(),
                forall|k: int|
                    0 <= k < sorted.len() ==> {
                        &&& #[trigger] sorted@[k].index < i
                        &&& app_rank(apps[sorted@[k].index as int], pat) == Some(sorted@[k].rank)
                        &&& sorted@[k].name@ == lowercase(apps[sorted@[k].index as int].name@)
                    },
                forall|j: int|
                    0 <= j < i && (#[trigger] app_rank(apps[j], pat)) is Some ==> exists|k: int|
                        0 <= k < sorted.len() && sorted@[k].index == j,
                forall|k: int, l: int|
                    0 <= k < l < sorted.len() ==> listed_before(
                        apps,
                        pat,
                        #[trigger] sorted@[k].index as int,
                        #[trigger] sorted@[l].index as int,
                    ),
            decreases self.apps.len() - i,
        {
            let rank = app_rank_exec(&self.apps[i], &pattern);
            if let Some(rk) = rank {
                let lower = to_lowercase(self.apps[i].name.as_str());
                let name = chars_of(lower.as_str());
                let ghost old_sorted = sorted@;
                // Insertion point: after every candidate that is not worse.
                let mut pos: usize = sorted.len();
                while pos > 0 && (rank_lt_exec(rk, sorted[pos - 1].rank) || (rank_eq_exec(rk, sorted[pos - 1].rank) && name_lt_exec(&name, &sorted[pos - 1].name)))
                    invariant
                        sorted@ == old_sorted,
                        pos <= sorted.len(),
                        forall|l: int|
                            pos <= l < sorted.len() ==> listed_before(
                                apps,
                                pat,
                                i as int,
                                #[trigger] sorted@[l].index as int,
                            ),
                        forall|k: int|
                            0 <= k < sorted.len() ==> {
                                &&& #[trigger] sorted@[k].index < i
                                &&& app_rank(apps[sorted@[k].index as int], pat) == Some(
                                    sorted@[k].rank,
                                )
                                &&& sorted@[k].name@ == lowercase(
                                    apps[sorted@[k].index as int].name@,
                                )
                            },
                        app_rank(apps[i as int], pat) == Some(rk),
                        name@ == lowercase(apps[i as int].name@),
                    decreases pos,
                {
                    pos = pos - 1;
                }
                proof {
                    if pos > 0 {
                        let p1: int = sorted@[pos - 1].index as int;
                        assert(listed_before(apps, pat, p1, i as int)) by {
                            lemma_name_lt_total(name@, sorted@[pos - 1].name@);
                            lemma_name_lt_asym(name@, sorted@[pos - 1].name@);
                        }
                        assert forall|k: int| 0 <= k < pos implies listed_before(
                            apps,
                            pat,
                            #[trigger] sorted@[k].index as int,
                            i as int,
                        ) by {
                            if k < pos - 1 {
                                assert(listed_before(apps, pat, sorted@[k].index as int, p1));
                                lemma_listed_before_order(
                                    apps,
                                    pat,
                                    sorted@[k].index as int,
                                    p1,
                                    i as int,
                                );
                            }
                        }
                    }
                }
                sorted.insert(pos, Candidate { index: i, rank: rk, name });
                proof {
                    assert forall|k: int, l: int| 0 <= k < l < sorted.len() implies listed_before(
                        apps,
                        pat,
                        #[trigger] sorted@[k].index as int,
                        #[trigger] sorted@[l].index as int,
                    ) by {
                        if k < pos && l < pos {
                            assert(sorted@[k] == old_sorted[k] && sorted@[l] == old_sorted[l]);
                        } else if k < pos && l == pos {
                            assert(sorted@[k] == old_sorted[k]);
                        } else if k < pos {
                            assert(sorted@[k] == old_sorted[k] && sorted@[l] == old_sorted[l - 1]);
                        } else if k == pos {
                            assert(sorted@[l] == old_sorted[l - 1]);
                        } else {
                            assert(sorted@[k] == old_sorted[k - 1] && sorted@[l] == old_sorted[l
                                - 1]);
                        }
                    }
                    assert forall|j: int|
                        0 <= j < i + 1 && (#[trigger] app_rank(apps[j], pat)) is Some implies exists|
                        k: int,
                    |
                        0 <= k < sorted.len() && sorted@[k].index == j by {
                        if j == i {
                            assert(sorted@[pos as int].index == j);
                        } else {
                            let k0: int = choose|k: int|
                                0 <= k < old_sorted.len() && old_sorted[k].index == j;
                            if k0 < pos {
                                assert(sorted@[k0].index == j);
                            } else {
                                assert(sorted@[k0 + 1].index == j);
                            }
                        }
                    }
                }
            }
            i = i + 1;
        }
        let mut r: Vec<&AppEntry> = Vec::new();
        let mut k: usize = 0;
        while k < sorted.len()
            invariant
                apps == self.apps@,
                k <= sorted.len(),
                r@.len() == k,
                forall|m: int| 0 <= m < sorted.len() ==> #[trigger] sorted@[m].index < apps.len(),
                forall|m: int|
                    0 <= m < k ==> *r@[m] == apps[#[trigger] sorted@[m].index as int],
            decreases sorted.len() - k,
        {
            r.push(&self.apps[sorted[k].index]);
            k = k + 1;
        }
        let ghost order = sorted@.map_values(|c: Candidate| c.index as int);
        proof {
            assert forall|j: int|
                0 <= j < apps.len() && (#[trigger] app_rank(apps[j], pat)) is Some implies order.contains(
                j,
            ) by {
                let k0: int = choose|k: int| 0 <= k < sorted.len() && sorted@[k].index == j;
                assert(order[k0] == j);
            }
            assert(is_search_order(apps, pat, order));
        }
        r
    }
}

// ---------------------------------------------------------------------------
// Laws
// ---------------------------------------------------------------------------

/// A pattern matches a text (at some level) exactly when it is non-empty and
/// its characters occur in the text in order.
pub proof fn lemma_match_iff_subsequence(text: Seq<char>, pattern: Seq<char>)
    ensures
        match_rank_spec(text, pattern) is Some <==> pattern.len() > 0 && is_subsequence(
            pattern,
            text,
        ),
{
    if pattern.len() > 0 {
        if text == pattern || pattern.is_prefix_of(text) {
            assert(text.subrange(0, pattern.len() as int) =~= pattern);
            lemma_occurrence_embeds(text, pattern, 0);
        } else if find(text, pattern) is Some {
            lemma_find_is_first(text, pattern);
            lemma_occurrence_embeds(text, pattern, find(text, pattern)->0);
        }
    }
}

/// Searching ignores the case of ASCII letters: two ASCII keywords that
/// differ only in letter case (so their searches use the patterns
/// `ascii_lower(trim(k1))` and `ascii_lower(trim(k2))`) list the same
/// applications in the same order.
pub proof fn lemma_search_ascii_case_insensitive(
    apps: Seq<AppEntry>,
    k1: Seq<char>,
    k2: Seq<char>,
    o1: Seq<int>,
    o2: Seq<int>,
)
    requires
        ascii_lower(k1) == ascii_lower(k2),
        is_search_order(apps, ascii_lower(trim(k1)), o1),
        is_search_order(apps, ascii_lower(trim(k2)), o2),
    ensures
        o1 == o2,
{
    lemma_ascii_lower_trim(k1, k2);
    lemma_search_order_unique(apps, ascii_lower(trim(k1)), o1, o2);
}

/// White space around a keyword does not change the search: the keyword
/// `w1 + k + w2`, with `w1` and `w2` all white space, lists the same
/// applications in the same order as `k`.
pub proof fn lemma_search_ignores_white_space_around(
    apps: Seq<AppEntry>,
    w1: Seq<char>,
    k: Seq<char>,
    w2: Seq<char>,
    o1: Seq<int>,
    o2: Seq<int>,
)
    requires
        forall|i: int| 0 <= i < w1.len() ==> is_white_space(#[trigger] w1[i]),
        forall|i: int| 0 <= i < w2.len() ==> is_white_space(#[trigger] w2[i]),
        is_search_order(apps, lowercase(trim(w1 + k + w2)), o1),
        is_search_order(apps, lowercase(trim(k)), o2),
    ensures
        o1 == o2,
{
    lemma_trim_ignores_white_space_around(w1, k, w2);
    lemma_search_order_unique(apps, lowercase(trim(k)), o1, o2);
}

/// Being a subsequence is transitive.
pub proof fn lemma_subsequence_trans(a: Seq<char>, b: Seq<char>, c: Seq<char>)
    requires
        is_subsequence(a, b),
        is_subsequence(b, c),
    ensures
        is_subsequence(a, c),
{
    let ia: Seq<int> = choose|idx: Seq<int>| is_embedding(b, a, idx);
    let ib: Seq<int> = choose|idx: Seq<int>| is_embedding(c, b, idx);
    let idx = Seq::new(a.len(), |k: int| ib[ia[k]]);
    assert forall|k: int| 0 <= k < idx.len() implies 0 <= #[trigger] idx[k] < c.len() && c[idx[k]]
        == a[k] by {
        assert(0 <= ia[k] < b.len());
    }
    assert forall|k: int, l: int| 0 <= k < l < idx.len() implies #[trigger] idx[k] < #[trigger] idx[l] by {
        assert(ia[k] < ia[l]);
        assert(0 <= ia[l] < b.len());
    }
    assert(is_embedding(c, a, idx));
}

/// Typing on narrows the search: when the non-empty pattern `p1` is a
/// subsequence of `p2` (for instance a prefix of it), every application
/// listed for `p2` is also listed for `p1`.
pub proof fn lemma_search_narrows(
    apps: Seq<AppEntry>,
    p1: Seq<char>,
    p2: Seq<char>,
    o1: Seq<int>,
    o2: Seq<int>,
)
    requires
        p1.len() > 0,
        is_subsequence(p1, p2),
        is_search_order(apps, p1, o1),
        is_search_order(apps, p2, o2),
    ensures
        forall|k: int| 0 <= k < o2.len() ==> o1.contains(#[trigger] o2[k]),
{
    assert forall|k: int| 0 <= k < o2.len() implies o1.contains(#[trigger] o2[k]) by {
        let i = o2[k];
        let names = split_char(apps[i].search_key@, ',');
        lemma_best_rank_is_best_name(names, p2);
        lemma_best_rank_is_best_name(names, p1);
        let r = best_rank(names, p2)->0;
        let m: int = choose|m: int|
            0 <= m < names.len() && #[trigger] match_rank_spec(trim(names[m]), p2) == Some(r);
        lemma_match_iff_subsequence(trim(names[m]), p2);
        lemma_subsequence_trans(p1, p2, trim(names[m]));
        lemma_match_iff_subsequence(trim(names[m]), p1);
        assert(match_rank_spec(trim(names[m]), p1) is Some);
        assert(app_rank(apps[i], p1) is Some);
    }
}

/// Some embedding ending at `m` implies a tightest end exists.
proof fn lemma_tightest_end_exists(t: Seq<char>, p: Seq<char>, m: int)
    requires
        p.len() > 0,
        exists|idx: Seq<int>| is_embedding(t, p, idx) && idx[p.len() - 1] == m,
    ensures
        is_tightest_end(t, p, tightest_end(t, p)),
    decreases m,
{
    let w: Seq<int> = choose|idx: Seq<int>| is_embedding(t, p, idx) && idx[p.len() - 1] == m;
    assert(0 <= w[p.len() - 1]);
    if forall|idx: Seq<int>| is_embedding(t, p, idx) ==> m <= idx[p.len() - 1] {
        assert(is_tightest_end(t, p, m));
    } else {
        let v: Seq<int> = choose|idx: Seq<int>| is_embedding(t, p, idx) && !(m <= idx[p.len() - 1]);
        assert(0 <= v[p.len() - 1]);
        lemma_tightest_end_exists(t, p, v[p.len() - 1]);
    }
}

/// A character at position `m` implies its first position exists.
proof fn lemma_first_index_exists(t: Seq<char>, c: char, m: int)
    requires
        0 <= m < t.len(),
        t[m] == c,
    ensures
        is_first_index(t, c, first_index(t, c)),
    decreases m,
{
    if forall|j: int| 0 <= j < m ==> t[j] != c {
        assert(is_first_index(t, c, m));
    } else {
        let j: int = choose|j: int| 0 <= j < m && t[j] == c;
        lemma_first_index_exists(t, c, j);
    }
}

/// Positions of an embedding grow by at least one per character.
proof fn lemma_embedding_gaps(t: Seq<char>, p: Seq<char>, idx: Seq<int>, k: int, l: int)
    requires
        is_embedding(t, p, idx),
        0 <= k <= l < idx.len(),
    ensures
        idx[l] - idx[k] >= l - k,
    decreases l - k,
{
    if k < l {
        lemma_embedding_gaps(t, p, idx, k, l - 1);
        assert(idx[l - 1] < idx[l]);
    }
}

/// A fuzzy match (the last level) is never a contiguous one: the pattern has
/// at least two characters, and the span from the first position of its
/// first character to the tightest end is longer than the pattern.
pub proof fn lemma_fuzzy_span_exceeds_pattern(text: Seq<char>, pattern: Seq<char>)
    requires
        match_rank_spec(text, pattern) matches Some(r) && r.0 == 3,
    ensures
        pattern.len() >= 2,
        is_first_index(text, pattern[0], first_index(text, pattern[0])),
        is_tightest_end(text, pattern, tightest_end(text, pattern)),
        tightest_end(text, pattern) - first_index(text, pattern[0]) + 1 > pattern.len(),
{
    let n = pattern.len() as int;
    lemma_find_is_first(text, pattern);
    let w: Seq<int> = choose|idx: Seq<int>| is_embedding(text, pattern, idx);
    lemma_first_index_exists(text, pattern[0], w[0]);
    lemma_tightest_end_exists(text, pattern, w[n - 1]);
    let f = first_index(text, pattern[0]);
    let e = tightest_end(text, pattern);
    if n == 1 {
        assert(text.subrange(w[0], w[0] + 1) =~= pattern);
        assert(occurs_at(text, pattern, w[0]));
    }
    let v: Seq<int> = choose|idx: Seq<int>| is_embedding(text, pattern, idx) && idx[n - 1] == e;
    assert(v[0] >= f) by {
        if v[0] < f {
            assert(text[v[0]] == pattern[0]);
        }
    }
    lemma_embedding_gaps(text, pattern, v, 0, n - 1);
    if e - f + 1 <= n {
        assert forall|k: int| 0 <= k < n implies #[trigger] v[k] == f + k by {
            lemma_embedding_gaps(text, pattern, v, 0, k);
            lemma_embedding_gaps(text, pattern, v, k, n - 1);
        }
        assert(text.subrange(f, f + n) =~= pattern) by {
            assert forall|k: int| 0 <= k < n implies text.subrange(f, f + n)[k] == pattern[k] by {
                assert(v[k] == f + k);
            }
        }
        assert(occurs_at(text, pattern, f));
    }
}

/// What a match rank says about the text: no rank for an empty pattern or
/// one whose characters do not occur in order; level 0 exactly for the
/// whole text, at most 1 exactly for a prefix, at most 2 exactly when the
/// pattern occurs contiguously, and then the start is the first position
/// where it occurs and the span is the pattern's length.
pub proof fn lemma_match_rank_meaning(text: Seq<char>, pattern: Seq<char>)
    requires
        text.len() <= usize::MAX,
    ensures
        match match_rank_spec(text, pattern) {
            None => pattern.len() == 0 || !is_subsequence(pattern, text),
            Some(r) => {
                &&& pattern.len() > 0
                &&& r.0 <= 3
                &&& (r.0 == 0 <==> text == pattern)
                &&& (r.0 <= 1 <==> pattern.is_prefix_of(text))
                &&& (r.0 <= 2 <==> exists|i: int| occurs_at(text, pattern, i))
                &&& r.0 <= 2 ==> {
                    &&& r.2 == pattern.len()
                    &&& occurs_at(text, pattern, r.1 as int)
                    &&& forall|j: int| 0 <= j < r.1 ==> !occurs_at(text, pattern, j)
                }
            },
        },
{
    lemma_match_iff_subsequence(text, pattern);
    lemma_find_is_first(text, pattern);
    if pattern.len() > 0 && pattern.len() <= text.len() {
        if pattern.is_prefix_of(text) {
            assert(text.subrange(0, pattern.len() as int) =~= pattern);
            assert(occurs_at(text, pattern, 0));
        } else {
            assert(!occurs_at(text, pattern, 0)) by {
                if occurs_at(text, pattern, 0) {
                    assert(text.subrange(0, pattern.len() as int) =~= pattern);
                }
            }
        }
        if text == pattern {
            assert(pattern.is_prefix_of(text)) by {
                assert(text.subrange(0, pattern.len() as int) =~= pattern);
            }
        }
    }
    if pattern.len() > text.len() {
        assert forall|i: int| !occurs_at(text, pattern, i) by {}
        assert(!pattern.is_prefix_of(text));
    }
    if exists|i: int| occurs_at(text, pattern, i) {
        let i: int = choose|i: int| occurs_at(text, pattern, i);
        assert(find(text, pattern) is Some);
    }
}

/// A better rank never has a worse level: exact matches come before
/// prefix matches, those before contiguous substrings, and those before
/// fuzzy (non-contiguous) matches.
pub proof fn lemma_rank_le_levels(a: Rank, b: Rank)
    ensures
        rank_le(a, b) ==> a.0 <= b.0,
{
}

/// Along the result list the match levels never go down, so every
/// application with a contiguous match of the pattern is listed before
/// every application that matches only as a scattered subsequence.
pub proof fn lemma_search_levels_sorted(
    apps: Seq<AppEntry>,
    pattern: Seq<char>,
    order: Seq<int>,
    k: int,
    l: int,
)
    requires
        is_search_order(apps, pattern, order),
        0 <= k < l < order.len(),
    ensures
        (app_rank(apps[order[k]], pattern)->0).0 <= (app_rank(apps[order[l]], pattern)->0).0,
{
    lemma_search_ranks_sorted(apps, pattern, order, k, l);
    lemma_rank_le_levels(app_rank(apps[order[k]], pattern)->0, app_rank(apps[order[l]], pattern)->0);
}

/// An application read from a desktop file is found, as an exact match, by
/// searching for one of its names as written (trimmed and non-empty), given
/// that lower-casing the comma-joined names lower-cases each name on its
/// own, and that a lower-cased name is trimmed and holds no comma.
pub proof fn lemma_found_by_own_name(
    filename: Seq<char>,
    content: Seq<char>,
    name_prefix: Seq<char>,
    comment_prefix: Seq<char>,
    app: AppEntry,
    names: Seq<Seq<char>>,
    k: int,
)
    requires
        app_fields_match(filename, content, name_prefix, comment_prefix, app),
        names == entry_names(entry_lines(content), name_prefix),
        0 <= k < names.len(),
        trim(names[k]) == names[k],
        lowercase(names[k]).len() > 0,
        lowercase(join(names, ","@)) == join(names.map_values(|n: Seq<char>| lowercase(n)), ","@),
        forall|i: int|
            0 <= i < names.len() ==> !lowercase(#[trigger] names[i]).contains(',') && trim(
                lowercase(names[i]),
            ) == lowercase(names[i]),
    ensures
        app_rank(app, lowercase(trim(names[k])))
            == Some((0u8, 0usize, lowercase(names[k]).len() as usize)),
{
    reveal_strlit(",");
    assert(","@ =~= seq![',']);
    let low = names.map_values(|n: Seq<char>| lowercase(n));
    assert forall|i: int| 0 <= i < low.len() implies !(#[trigger] low[i]).contains(',') by {
        assert(low[i] == lowercase(names[i]));
    }
    lemma_split_char_join(low, ',');
    assert(split_char(app.search_key@, ',') == low);
    let pat = lowercase(names[k]);
    assert(low[k] == pat);
    assert(trim(low[k]) == pat);
    let exact: Rank = (0u8, 0usize, pat.len() as usize);
    assert(match_rank_spec(trim(low[k]), pat) == Some(exact));
    lemma_best_rank_is_best_name(low, pat);
    let r = best_rank(low, pat)->0;
    let m: int = choose|m: int| 0 <= m < low.len() && #[trigger] match_rank_spec(trim(low[m]), pat) == Some(r);
    assert(rank_le(r, exact));
}

/// Two sequences sorted strictly by [`listed_before`] with the same elements
/// are equal.
proof fn lemma_sorted_unique(apps: Seq<AppEntry>, pattern: Seq<char>, a: Seq<int>, b: Seq<int>)
    requires
        forall|k: int, l: int|
            0 <= k < l < a.len() ==> listed_before(apps, pattern, #[trigger] a[k], #[trigger] a[l]),
        forall|k: int, l: int|
            0 <= k < l < b.len() ==> listed_before(apps, pattern, #[trigger] b[k], #[trigger] b[l]),
        forall|x: int| a.contains(x) <==> b.contains(x),
    ensures
        a == b,
    decreases a.len(),
{
    if a.len() == 0 {
        if b.len() > 0 {
            assert(b.contains(b[0]));
        }
        assert(a =~= b);
    } else {
        assert(a.contains(a[0]));
        let l: int = choose|l: int| 0 <= l < b.len() && b[l] == a[0];
        assert(b.contains(b[0]));
        let k: int = choose|k: int| 0 <= k < a.len() && a[k] == b[0];
        if a[0] != b[0] {
            assert(listed_before(apps, pattern, b[0], b[l]));
            assert(listed_before(apps, pattern, a[0], a[k]));
            lemma_listed_before_order(apps, pattern, a[0], b[0], a[0]);
        }
        let ta = a.drop_first();
        let tb = b.drop_first();
        assert forall|x: int| ta.contains(x) <==> tb.contains(x) by {
            if ta.contains(x) {
                let i: int = choose|i: int| 0 <= i < ta.len() && ta[i] == x;
                assert(listed_before(apps, pattern, a[0], a[i + 1]));
                lemma_listed_before_order(apps, pattern, x, x, x);
                assert(a.contains(x));
                let j: int = choose|j: int| 0 <= j < b.len() && b[j] == x;
                assert(j != 0);
                assert(tb[j - 1] == x);
            }
            if tb.contains(x) {
                let i: int = choose|i: int| 0 <= i < tb.len() && tb[i] == x;
                assert(listed_before(apps, pattern, b[0], b[i + 1]));
                lemma_listed_before_order(apps, pattern, x, x, x);
                assert(b.contains(x));
                let j: int = choose|j: int| 0 <= j < a.len() && a[j] == x;
                assert(j != 0);
                assert(ta[j - 1] == x);
            }
        }
        assert forall|k: int, l: int| 0 <= k < l < ta.len() implies listed_before(
            apps,
            pattern,
            #[trigger] ta[k],
            #[trigger] ta[l],
        ) by {
            assert(listed_before(apps, pattern, a[k + 1], a[l + 1]));
        }
        assert forall|k: int, l: int| 0 <= k < l < tb.len() implies listed_before(
            apps,
            pattern,
            #[trigger] tb[k],
            #[trigger] tb[l],
        ) by {
            assert(listed_before(apps, pattern, b[k + 1], b[l + 1]));
        }
        lemma_sorted_unique(apps, pattern, ta, tb);
        assert(a =~= seq![a[0]] + ta);
        assert(b =~= seq![b[0]] + tb);
    }
}

/// The search order is fully determined: for given applications and
/// pattern there is exactly one order satisfying [`is_search_order`].
pub proof fn lemma_search_order_unique(
    apps: Seq<AppEntry>,
    pattern: Seq<char>,
    o1: Seq<int>,
    o2: Seq<int>,
)
    requires
        is_search_order(apps, pattern, o1),
        is_search_order(apps, pattern, o2),
    ensures
        o1 == o2,
{
    assert forall|x: int| o1.contains(x) <==> o2.contains(x) by {
        if o1.contains(x) {
            let k: int = choose|k: int| 0 <= k < o1.len() && o1[k] == x;
            assert(app_rank(apps[o1[k]], pattern) is Some);
        }
        if o2.contains(x) {
            let k: int = choose|k: int| 0 <= k < o2.len() && o2[k] == x;
            assert(app_rank(apps[o2[k]], pattern) is Some);
        }
    }
    lemma_sorted_unique(apps, pattern, o1, o2);
}

/// The rank of an application is the best rank of any one of its names:
/// some name has exactly that rank and no name ranks better. In particular
/// a match never spans two comma-separated names.
pub proof fn lemma_best_rank_is_best_name(names: Seq<Seq<char>>, pattern: Seq<char>)
    ensures
        best_rank(names, pattern) matches Some(r) ==> exists|k: int|
            0 <= k < names.len() && #[trigger] match_rank_spec(trim(names[k]), pattern) == Some(r),
        best_rank(names, pattern) matches Some(r) ==> forall|k: int|
            0 <= k < names.len() ==> (#[trigger] match_rank_spec(trim(names[k]), pattern) matches Some(
                q,
            ) ==> rank_le(r, q)),
        best_rank(names, pattern) is None ==> forall|k: int|
            0 <= k < names.len() ==> #[trigger] match_rank_spec(trim(names[k]), pattern) is None,
    decreases names.len(),
{
    if names.len() > 0 {
        let init = names.drop_last();
        lemma_best_rank_is_best_name(init, pattern);
        assert forall|k: int| 0 <= k < init.len() implies #[trigger] init[k] == names[k] by {}
        let last = match_rank_spec(trim(names.last()), pattern);
        if let Some(r) = best_rank(names, pattern) {
            if best_rank(init, pattern) == Some(r) {
                let k: int = choose|k: int|
                    0 <= k < init.len() && #[trigger] match_rank_spec(trim(init[k]), pattern) == Some(r);
                assert(match_rank_spec(trim(names[k]), pattern) == Some(r));
            } else {
                assert(match_rank_spec(trim(names[names.len() - 1]), pattern) == Some(r));
            }
            assert forall|k: int| 0 <= k < names.len() implies (#[trigger] match_rank_spec(
                trim(names[k]),
                pattern,
            ) matches Some(q) ==> rank_le(r, q)) by {
                if k < init.len() {
                    assert(init[k] == names[k]);
                    assert(match_rank_spec(trim(init[k]), pattern) == match_rank_spec(
                        trim(names[k]),
                        pattern,
                    ));
                }
            }
        } else {
            assert forall|k: int| 0 <= k < names.len() implies #[trigger] match_rank_spec(
                trim(names[k]),
                pattern,
            ) is None by {
                if k < init.len() {
                    assert(init[k] == names[k]);
                    assert(match_rank_spec(trim(init[k]), pattern) == match_rank_spec(
                        trim(names[k]),
                        pattern,
                    ));
                }
            }
        }
    }
}

/// An empty pattern matches no application, so searching for it lists
/// nothing.
pub proof fn lemma_empty_pattern_lists_nothing(apps: Seq<AppEntry>, order: Seq<int>)
    requires
        is_search_order(apps, Seq::empty(), order),
    ensures
        order.len() == 0,
{
    if order.len() > 0 {
        let i: int = order[0];
        let names = split_char(apps[i].search_key@, ',');
        lemma_best_rank_is_best_name(names, Seq::empty());
        if let Some(r) = best_rank(names, Seq::empty()) {
            let k: int = choose|k: int|
                0 <= k < names.len() && #[trigger] match_rank_spec(trim(names[k]), Seq::empty())
                    == Some(r);
        }
    }
}

/// Listed results never get worse matches earlier: ranks are
/// non-decreasing along the result list (so exact matches come first, then
/// prefix matches, then substrings, then fuzzy matches).
pub proof fn lemma_search_ranks_sorted(apps: Seq<AppEntry>, pattern: Seq<char>, order: Seq<int>, k: int, l: int)
    requires
        is_search_order(apps, pattern, order),
        0 <= k < l < order.len(),
    ensures
        rank_le(app_rank(apps[order[k]], pattern)->0, app_rank(apps[order[l]], pattern)->0),
{
    assert(listed_before(apps, pattern, order[k], order[l]));
}

/// When some name of an application equals the (non-empty) pattern, the
/// first listed result is an exact match.
pub proof fn lemma_exact_match_listed_first(
    apps: Seq<AppEntry>,
    pattern: Seq<char>,
    order: Seq<int>,
    i: int,
    n: int,
)
    requires
        is_search_order(apps, pattern, order),
        pattern.len() > 0,
        0 <= i < apps.len(),
        0 <= n < split_char(apps[i].search_key@, ',').len(),
        trim(split_char(apps[i].search_key@, ',')[n]) == pattern,
    ensures
        order.len() > 0,
        app_rank(apps[order[0]], pattern) == Some((0u8, 0usize, pattern.len() as usize)),
{
    let exact: Rank = (0u8, 0usize, pattern.len() as usize);
    let names = split_char(apps[i].search_key@, ',');
    lemma_best_rank_is_best_name(names, pattern);
    assert(match_rank_spec(trim(names[n]), pattern) == Some(exact));
    assert(app_rank(apps[i], pattern) == Some(exact)) by {
        let r = best_rank(names, pattern)->0;
        let m: int = choose|m: int|
            0 <= m < names.len() && #[trigger] match_rank_spec(trim(names[m]), pattern) == Some(r);
        assert(rank_le(r, exact));
    }
    assert(order.contains(i));
    let k: int = choose|k: int| 0 <= k < order.len() && order[k] == i;
    if k > 0 {
        assert(listed_before(apps, pattern, order[0], order[k]));
        let j: int = order[0];
        let names_j = split_char(apps[j].search_key@, ',');
        lemma_best_rank_is_best_name(names_j, pattern);
        let r = best_rank(names_j, pattern)->0;
        let m: int = choose|m: int|
            0 <= m < names_j.len() && #[trigger] match_rank_spec(trim(names_j[m]), pattern) == Some(r);
        assert(r == exact);
    }
}

} // verus!
