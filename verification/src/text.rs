//! Text primitives over sequences of Unicode scalar values.
//!
//! Everything here works on the `Seq<char>` view of strings: indices are
//! character positions, never byte offsets.
use vstd::prelude::*;

verus! {

broadcast use vstd::string::group_string_axioms;

// ---------------------------------------------------------------------------
// Specifications
// ---------------------------------------------------------------------------

/// The Unicode `White_Space` property (Unicode PropList.txt).
pub open spec fn is_white_space(c: char) -> bool {
    ||| ('\u{9}' <= c && c <= '\u{D}')
    ||| c == ' '
    ||| c == '\u{85}'
    ||| c == '\u{A0}'
    ||| c == '\u{1680}'
    ||| ('\u{2000}' <= c && c <= '\u{200A}')
    ||| c == '\u{2028}'
    ||| c == '\u{2029}'
    ||| c == '\u{202F}'
    ||| c == '\u{205F}'
    ||| c == '\u{3000}'
}

/// `s` without its leading white space.
pub open spec fn trim_start(s: Seq<char>) -> Seq<char>
    decreases s.len(),
{
    if s.len() > 0 && is_white_space(s[0]) {
        trim_start(s.drop_first())
    } else {
        s
    }
}

/// `s` without its trailing white space.
pub open spec fn trim_end(s: Seq<char>) -> Seq<char>
    decreases s.len(),
{
    if s.len() > 0 && is_white_space(s.last()) {
        trim_end(s.drop_last())
    } else {
        s
    }
}

/// `s` without leading and trailing white space.
pub open spec fn trim(s: Seq<char>) -> Seq<char> {
    trim_end(trim_start(s))
}

/// Position of the first occurrence of `p` in `s` (an empty `p` occurs at 0).
pub open spec fn find(s: Seq<char>, p: Seq<char>) -> Option<int>
    decreases s.len(),
{
    if p.is_prefix_of(s) {
        Some(0)
    } else if s.len() == 0 {
        None
    } else {
        match find(s.drop_first(), p) {
            Some(k) => Some(k + 1),
            None => None,
        }
    }
}

/// Does `p` occur somewhere in `s`?
pub open spec fn contains(s: Seq<char>, p: Seq<char>) -> bool {
    find(s, p) is Some
}

/// Does `p` occur in `s` starting at position `i`?
pub open spec fn occurs_at(s: Seq<char>, p: Seq<char>, i: int) -> bool {
    0 <= i && i + p.len() <= s.len() && s.subrange(i, i + p.len()) == p
}

/// `s` holds only ASCII characters.
pub open spec fn is_ascii_text(s: Seq<char>) -> bool {
    forall|i: int| 0 <= i < s.len() ==> #[trigger] s[i] <= '\u{7F}'
}

/// `c` with an ASCII capital letter replaced by its small letter.
pub open spec fn ascii_lower_char(c: char) -> char {
    if 'A' <= c && c <= 'Z' {
        ((c as u32) + 32) as char
    } else {
        c
    }
}

/// `s` with every ASCII capital letter replaced by its small letter.
pub open spec fn ascii_lower(s: Seq<char>) -> Seq<char> {
    s.map_values(|c: char| ascii_lower_char(c))
}

/// Lower-case mapping of a whole string, as `str::to_lowercase` computes it
/// (full Unicode case mapping, context-sensitive for final sigma).
pub uninterp spec fn lowercase(s: Seq<char>) -> Seq<char>;

// ---------------------------------------------------------------------------
// Lemmas
// ---------------------------------------------------------------------------

/// `find` reports a genuine occurrence, and the first one.
pub proof fn lemma_find_is_first(s: Seq<char>, p: Seq<char>)
    ensures
        match find(s, p) {
            Some(i) => occurs_at(s, p, i) && forall|j: int| 0 <= j < i ==> !occurs_at(s, p, j),
            None => forall|j: int| !occurs_at(s, p, j),
        },
    decreases s.len(),
{
    if p.is_prefix_of(s) {
        assert(s.subrange(0, p.len() as int) =~= p);
    } else if s.len() == 0 {
        assert forall|j: int| !occurs_at(s, p, j) by {
            if occurs_at(s, p, j) {
                assert(j == 0 && p.len() == 0);
                assert(p =~= s.subrange(0, 0));
            }
        }
    } else {
        lemma_find_is_first(s.drop_first(), p);
        let t = s.drop_first();
        assert forall|j: int| 1 <= j implies occurs_at(s, p, j) == occurs_at(t, p, j - 1) by {
            if 0 <= j - 1 && j - 1 + p.len() <= t.len() {
                assert(s.subrange(j, j + p.len()) =~= t.subrange(j - 1, j - 1 + p.len()));
            }
        }
        assert(!occurs_at(s, p, 0)) by {
            if occurs_at(s, p, 0) {
                assert(p.is_prefix_of(s));
            }
        }
    }
}

/// `a` and `b` are the same text but for the case of ASCII letters.
pub open spec fn same_but_ascii_case(a: Seq<char>, b: Seq<char>) -> bool {
    a.len() == b.len() && forall|i: int| 0 <= i < a.len() ==> ascii_lower_char(#[trigger] a[i])
        == ascii_lower_char(b[i])
}

/// Characters equal but for ASCII case are both white space or neither.
proof fn lemma_case_keeps_white_space(c: char, d: char)
    requires
        ascii_lower_char(c) == ascii_lower_char(d),
    ensures
        is_white_space(c) == is_white_space(d),
{
    if 'A' <= c && c <= 'Z' {
        assert('a' <= ascii_lower_char(c) && ascii_lower_char(c) <= 'z');
    }
    if 'A' <= d && d <= 'Z' {
        assert('a' <= ascii_lower_char(d) && ascii_lower_char(d) <= 'z');
    }
}

/// Trimming keeps texts that are equal but for ASCII case so.
proof fn lemma_trim_same_but_ascii_case(a: Seq<char>, b: Seq<char>)
    requires
        same_but_ascii_case(a, b),
    ensures
        same_but_ascii_case(trim_start(a), trim_start(b)),
        same_but_ascii_case(trim_end(a), trim_end(b)),
        same_but_ascii_case(trim(a), trim(b)),
    decreases a.len(),
{
    if a.len() > 0 {
        lemma_case_keeps_white_space(a[0], b[0]);
        lemma_case_keeps_white_space(a.last(), b.last());
        let (a1, b1) = (a.drop_first(), b.drop_first());
        assert forall|i: int| 0 <= i < a1.len() implies ascii_lower_char(#[trigger] a1[i])
            == ascii_lower_char(b1[i]) by {
            assert(a1[i] == a[i + 1] && b1[i] == b[i + 1]);
        }
        lemma_trim_same_but_ascii_case(a1, b1);
        let (a2, b2) = (a.drop_last(), b.drop_last());
        assert forall|i: int| 0 <= i < a2.len() implies ascii_lower_char(#[trigger] a2[i])
            == ascii_lower_char(b2[i]) by {
            assert(a2[i] == a[i] && b2[i] == b[i]);
        }
        lemma_trim_same_but_ascii_case(a2, b2);
    }
    if trim_start(a).len() > 0 || trim_start(b).len() > 0 {
        lemma_trim_same_but_ascii_case_end(trim_start(a), trim_start(b));
    }
}

/// The `trim_end` half of [`lemma_trim_same_but_ascii_case`].
proof fn lemma_trim_same_but_ascii_case_end(a: Seq<char>, b: Seq<char>)
    requires
        same_but_ascii_case(a, b),
    ensures
        same_but_ascii_case(trim_end(a), trim_end(b)),
    decreases a.len(),
{
    if a.len() > 0 {
        lemma_case_keeps_white_space(a.last(), b.last());
        let (a2, b2) = (a.drop_last(), b.drop_last());
        assert forall|i: int| 0 <= i < a2.len() implies ascii_lower_char(#[trigger] a2[i])
            == ascii_lower_char(b2[i]) by {
            assert(a2[i] == a[i] && b2[i] == b[i]);
        }
        lemma_trim_same_but_ascii_case_end(a2, b2);
    }
}

/// Trimming leaves a middle part of `s`.
pub proof fn lemma_trim_is_part(s: Seq<char>)
    ensures
        exists|i: int, j: int| 0 <= i <= j <= s.len() && trim(s) == s.subrange(i, j),
{
    lemma_trim_start_is_suffix(s);
    let i: int = choose|i: int| 0 <= i <= s.len() && trim_start(s) == s.skip(i);
    lemma_trim_end_is_prefix(trim_start(s));
    let j: int = choose|j: int|
        0 <= j <= trim_start(s).len() && trim_end(trim_start(s)) == trim_start(s).take(j);
    assert(trim(s) =~= s.subrange(i, i + j));
}

proof fn lemma_trim_start_is_suffix(s: Seq<char>)
    ensures
        exists|i: int| 0 <= i <= s.len() && trim_start(s) == s.skip(i),
    decreases s.len(),
{
    if s.len() > 0 && is_white_space(s[0]) {
        lemma_trim_start_is_suffix(s.drop_first());
        let i: int = choose|i: int|
            0 <= i <= s.drop_first().len() && trim_start(s.drop_first()) == s.drop_first().skip(i);
        assert(s.drop_first().skip(i) =~= s.skip(i + 1));
    } else {
        assert(s.skip(0) =~= s);
    }
}

proof fn lemma_trim_end_is_prefix(s: Seq<char>)
    ensures
        exists|j: int| 0 <= j <= s.len() && trim_end(s) == s.take(j),
    decreases s.len(),
{
    if s.len() > 0 && is_white_space(s.last()) {
        lemma_trim_end_is_prefix(s.drop_last());
        let j: int = choose|j: int|
            0 <= j <= s.drop_last().len() && trim_end(s.drop_last()) == s.drop_last().take(j);
        assert(s.drop_last().take(j) =~= s.take(j));
    } else {
        assert(s.take(s.len() as int) =~= s);
    }
}

/// The trimming of ASCII text is ASCII text.
pub proof fn lemma_trim_keeps_ascii(s: Seq<char>)
    requires
        is_ascii_text(s),
    ensures
        is_ascii_text(trim(s)),
{
    lemma_trim_is_part(s);
    let (i, j): (int, int) = choose|i: int, j: int|
        0 <= i <= j <= s.len() && trim(s) == s.subrange(i, j);
    assert forall|k: int| 0 <= k < trim(s).len() implies #[trigger] trim(s)[k] <= '\u{7F}' by {
        assert(trim(s)[k] == s[i + k]);
    }
}

/// ASCII texts equal but for letter case have equal trimmed lower-casings.
pub proof fn lemma_ascii_lower_trim(a: Seq<char>, b: Seq<char>)
    requires
        ascii_lower(a) == ascii_lower(b),
    ensures
        ascii_lower(trim(a)) == ascii_lower(trim(b)),
{
    assert(a.len() == ascii_lower(a).len());
    assert(b.len() == ascii_lower(b).len());
    assert forall|i: int| 0 <= i < a.len() implies ascii_lower_char(#[trigger] a[i])
        == ascii_lower_char(b[i]) by {
        assert(ascii_lower(a)[i] == ascii_lower_char(a[i]));
        assert(ascii_lower(b)[i] == ascii_lower_char(b[i]));
        assert(ascii_lower(a)[i] == ascii_lower(b)[i]);
    }
    lemma_trim_same_but_ascii_case(a, b);
    assert(ascii_lower(trim(a)) =~= ascii_lower(trim(b)));
}

/// Leading white space is dropped by `trim_start`.
proof fn lemma_trim_start_after_white(w: Seq<char>, s: Seq<char>)
    requires
        forall|i: int| 0 <= i < w.len() ==> is_white_space(#[trigger] w[i]),
    ensures
        trim_start(w + s) == trim_start(s),
    decreases w.len(),
{
    if w.len() > 0 {
        assert((w + s)[0] == w[0]);
        assert((w + s).drop_first() =~= w.drop_first() + s);
        lemma_trim_start_after_white(w.drop_first(), s);
    } else {
        assert(w + s =~= s);
    }
}

/// Trailing white space is dropped by `trim_end`.
proof fn lemma_trim_end_before_white(s: Seq<char>, w: Seq<char>)
    requires
        forall|i: int| 0 <= i < w.len() ==> is_white_space(#[trigger] w[i]),
    ensures
        trim_end(s + w) == trim_end(s),
    decreases w.len(),
{
    if w.len() > 0 {
        assert((s + w).last() == w.last());
        assert((s + w).drop_last() =~= s + w.drop_last());
        lemma_trim_end_before_white(s, w.drop_last());
    } else {
        assert(s + w =~= s);
    }
}

/// White space after a text does not change its trimming.
proof fn lemma_trim_before_white(s: Seq<char>, w: Seq<char>)
    requires
        forall|i: int| 0 <= i < w.len() ==> is_white_space(#[trigger] w[i]),
    ensures
        trim(s + w) == trim(s),
    decreases s.len(),
{
    if s.len() == 0 {
        assert(s + w =~= w);
        lemma_trim_start_after_white(w, Seq::empty());
        assert(w + Seq::<char>::empty() =~= w);
    } else if is_white_space(s[0]) {
        assert((s + w)[0] == s[0]);
        assert((s + w).drop_first() =~= s.drop_first() + w);
        lemma_trim_before_white(s.drop_first(), w);
    } else {
        assert((s + w)[0] == s[0]);
        lemma_trim_end_before_white(s, w);
    }
}

/// White space around a text does not change its trimming: with `w1` and
/// `w2` all white space, `w1 + s + w2` trims to what `s` trims to.
pub proof fn lemma_trim_ignores_white_space_around(w1: Seq<char>, s: Seq<char>, w2: Seq<char>)
    requires
        forall|i: int| 0 <= i < w1.len() ==> is_white_space(#[trigger] w1[i]),
        forall|i: int| 0 <= i < w2.len() ==> is_white_space(#[trigger] w2[i]),
    ensures
        trim(w1 + s + w2) == trim(s),
{
    assert(w1 + s + w2 =~= w1 + (s + w2));
    lemma_trim_start_after_white(w1, s + w2);
    lemma_trim_before_white(s, w2);
}

/// A trimmed non-empty text ends in a character that is not white space.
pub proof fn lemma_trimmed_last(p: Seq<char>)
    requires
        p.len() > 0,
        trim(p) == p,
    ensures
        !is_white_space(p.last()),
{
    lemma_trim_start_is_suffix(p);
    let i: int = choose|i: int| 0 <= i <= p.len() && trim_start(p) == p.skip(i);
    lemma_trim_end_is_prefix(trim_start(p));
    assert(trim_start(p) =~= p) by {
        let j: int = choose|j: int|
            0 <= j <= trim_start(p).len() && trim_end(trim_start(p)) == trim_start(p).take(j);
    }
    if is_white_space(p.last()) {
        lemma_trim_end_is_prefix(p.drop_last());
    }
}

/// Splitting `a + b`, where `b` holds no separator, extends the last piece
/// of `a` by `b`.
pub proof fn lemma_split_char_append(a: Seq<char>, b: Seq<char>, sep: char)
    requires
        !b.contains(sep),
    ensures
        split_char(a + b, sep) == split_char(a, sep).update(
            split_char(a, sep).len() - 1,
            split_char(a, sep).last() + b,
        ),
    decreases b.len(),
{
    lemma_split_char_nonempty(a, sep);
    if b.len() == 0 {
        assert(a + b =~= a);
        assert(split_char(a, sep).last() + b =~= split_char(a, sep).last());
        assert(split_char(a, sep).update(split_char(a, sep).len() - 1, split_char(a, sep).last())
            =~= split_char(a, sep));
    } else {
        let b0 = b.drop_last();
        assert(!b0.contains(sep)) by {
            if b0.contains(sep) {
                let k: int = choose|k: int| 0 <= k < b0.len() && b0[k] == sep;
                assert(b[k] == sep);
            }
        }
        assert(b.last() != sep) by {
            assert(b[b.len() - 1] == b.last());
        }
        lemma_split_char_append(a, b0, sep);
        assert((a + b).drop_last() =~= a + b0);
        assert((a + b).last() == b.last());
        let r = split_char(a, sep);
        assert(split_char(a + b, sep) =~= r.update(r.len() - 1, r.last() + b0).update(
            r.len() - 1,
            (r.last() + b0).push(b.last()),
        ));
        assert((r.last() + b0).push(b.last()) =~= r.last() + b);
    }
}

/// Splitting texts joined by a separator that none of them holds gives the
/// texts back.
pub proof fn lemma_split_char_join(parts: Seq<Seq<char>>, sep: char)
    requires
        parts.len() > 0,
        forall|i: int| 0 <= i < parts.len() ==> !(#[trigger] parts[i]).contains(sep),
    ensures
        split_char(join(parts, seq![sep]), sep) == parts,
    decreases parts.len(),
{
    if parts.len() == 1 {
        lemma_split_char_append(Seq::empty(), parts[0], sep);
        assert(Seq::<char>::empty() + parts[0] =~= parts[0]);
        assert(split_char(Seq::<char>::empty(), sep).update(0, Seq::<char>::empty() + parts[0])
            =~= parts);
    } else {
        let init = parts.drop_last();
        assert forall|i: int| 0 <= i < init.len() implies !(#[trigger] init[i]).contains(sep) by {
            assert(init[i] == parts[i]);
        }
        lemma_split_char_join(init, sep);
        let a = join(init, seq![sep]) + seq![sep];
        assert(parts.last() == parts[parts.len() - 1]);
        lemma_split_char_append(a, parts.last(), sep);
        assert(a.drop_last() =~= join(init, seq![sep]));
        assert(a.last() == sep);
        lemma_split_char_nonempty(a, sep);
        assert(Seq::<char>::empty() + parts.last() =~= parts.last());
        assert(split_char(join(parts, seq![sep]), sep) =~= init.push(parts.last()));
        assert(init.push(parts.last()) =~= parts);
    }
}

// ---------------------------------------------------------------------------
// Executable helpers
// ---------------------------------------------------------------------------

/// Calls `String::push`; trusted to leave the old characters followed by `c`.
#[verifier::external_body]
fn push_char(s: &mut String, c: char)
    ensures
        final(s)@ == old(s)@.push(c),
{
    s.push(c);
}

/// Whether `c` has the Unicode `White_Space` property, the set that
/// `char::is_whitespace` answers for.
pub(crate) fn char_is_whitespace(c: char) -> (r: bool)
    ensures
        r == is_white_space(c),
{
    ('\u{9}' <= c && c <= '\u{D}') || c == ' ' || c == '\u{85}' || c == '\u{A0}' || c
        == '\u{1680}' || ('\u{2000}' <= c && c <= '\u{200A}') || c == '\u{2028}' || c
        == '\u{2029}' || c == '\u{202F}' || c == '\u{205F}' || c == '\u{3000}'
}

/// Calls `str::to_lowercase`; trusted to give [`lowercase`] of the
/// characters of `s`, a function of them alone, and on ASCII text exactly
/// what `str::to_ascii_lowercase` gives (capitals `A`..`Z` to `a`..`z`, all
/// else unchanged), as std documents the two. What the mapping does to other
/// characters (the Unicode case tables) is left unsaid.
#[verifier::external_body]
pub(crate) fn to_lowercase(s: &str) -> (r: String)
    ensures
        r@ == lowercase(s@),
        is_ascii_text(s@) ==> r@ == ascii_lower(s@),
{
    s.to_lowercase()
}

/// The lower-case mapping of `s`, as the search and the sample data use it
/// (`str::to_lowercase`).
pub fn lowercase_str(s: &str) -> (r: String)
    ensures
        r@ == lowercase(s@),
        is_ascii_text(s@) ==> r@ == ascii_lower(s@),
{
    to_lowercase(s)
}

/// The characters of `s`, in order.
pub fn chars_of(s: &str) -> (r: Vec<char>)
    ensures
        r@ == s@,
{
    let mut v: Vec<char> = Vec::new();
    for c in it: s.chars()
        invariant
            it.seq() == s@,
            v@ == it.seq().take(it.index() as int),
    {
        v.push(c);
    }
    v
}

/// A `String` holding exactly the characters of `v`.
pub fn string_of(v: &Vec<char>) -> (r: String)
    ensures
        r@ == v@,
{
    let mut s = String::new();
    let mut i: usize = 0;
    while i < v.len()
        invariant
            i <= v.len(),
            s@ == v@.take(i as int),
        decreases v.len() - i,
    {
        push_char(&mut s, v[i]);
        i = i + 1;
        assert(s@ =~= v@.take(i as int));
    }
    assert(v@.take(v.len() as int) =~= v@);
    s
}

/// The characters `v[lo..hi]`.
pub fn slice_chars(v: &Vec<char>, lo: usize, hi: usize) -> (r: Vec<char>)
    requires
        lo <= hi <= v.len(),
    ensures
        r@ == v@.subrange(lo as int, hi as int),
{
    let mut r: Vec<char> = Vec::new();
    let mut i: usize = lo;
    while i < hi
        invariant
            lo <= i <= hi <= v.len(),
            r@ == v@.subrange(lo as int, i as int),
        decreases hi - i,
    {
        r.push(v[i]);
        i = i + 1;
        assert(r@ =~= v@.subrange(lo as int, i as int));
    }
    r
}

/// Whether `p` occurs in `s` at position `i`.
pub fn occurs_at_exec(s: &Vec<char>, p: &Vec<char>, i: usize) -> (r: bool)
    requires
        i <= s.len(),
    ensures
        r == p@.is_prefix_of(s@.skip(i as int)),
        r == occurs_at(s@, p@, i as int),
{
    if p.len() > s.len() - i {
        return false;
    }
    let mut k: usize = 0;
    while k < p.len()
        invariant
            k <= p.len(),
            i + p.len() <= s.len(),
            forall|j: int| 0 <= j < k ==> p@[j] == s@[i + j],
        decreases p.len() - k,
    {
        if p[k] != s[i + k] {
            assert(s@.skip(i as int)[k as int] == s@[i + k]);
            assert(s@.subrange(i as int, i + p.len())[k as int] == s@[i + k]);
            return false;
        }
        k = k + 1;
    }
    assert(p@ =~= s@.skip(i as int).subrange(0, p.len() as int));
    assert(p@ =~= s@.subrange(i as int, i + p.len()));
    true
}

/// Position of the first occurrence of `p` in `s`.
pub fn find_exec(s: &Vec<char>, p: &Vec<char>) -> (r: Option<usize>)
    ensures
        r matches Some(i) ==> find(s@, p@) == Some(i as int),
        r is None ==> find(s@, p@) is None,
{
    let mut i: usize = 0;
    assert(s@.skip(0) =~= s@);
    while i < s.len()
        invariant
            i <= s.len(),
            find(s@, p@) == match find(s@.skip(i as int), p@) {
                Some(k) => Some(k + i),
                None => None::<int>,
            },
        decreases s.len() - i,
    {
        if occurs_at_exec(s, p, i) {
            return Some(i);
        }
        assert(s@.skip(i as int).drop_first() =~= s@.skip(i + 1));
        i = i + 1;
    }
    assert(s@.skip(i as int).len() == 0);
    if occurs_at_exec(s, p, i) {
        Some(i)
    } else {
        None
    }
}

/// `s` without leading and trailing white space.
pub fn trim_chars(s: &Vec<char>) -> (r: Vec<char>)
    ensures
        r@ == trim(s@),
{
    let mut lo: usize = 0;
    assert(s@.subrange(0, s.len() as int) =~= s@);
    while lo < s.len() && char_is_whitespace(s[lo])
        invariant
            lo <= s.len(),
            trim_start(s@) == trim_start(s@.subrange(lo as int, s.len() as int)),
        decreases s.len() - lo,
    {
        assert(s@.subrange(lo as int, s.len() as int).drop_first() =~= s@.subrange(
            lo + 1,
            s.len() as int,
        ));
        lo = lo + 1;
    }
    let ghost front = s@.subrange(lo as int, s.len() as int);
    assert(trim_start(s@) == front);
    let mut hi: usize = s.len();
    assert(front.subrange(0, (hi - lo) as int) =~= front);
    while hi > lo && char_is_whitespace(s[hi - 1])
        invariant
            lo <= hi <= s.len(),
            front == s@.subrange(lo as int, s.len() as int),
            trim_end(front) == trim_end(s@.subrange(lo as int, hi as int)),
        decreases hi,
    {
        assert(s@.subrange(lo as int, hi as int).drop_last() =~= s@.subrange(
            lo as int,
            hi - 1,
        ));
        hi = hi - 1;
    }
    slice_chars(s, lo, hi)
}

/// `str::trim`, as a fresh `String`.
pub fn trim_str(s: &str) -> (r: String)
    ensures
        r@ == trim(s@),
{
    let v = chars_of(s);
    let t = trim_chars(&v);
    string_of(&t)
}

/// Do `a` and `b` hold the same characters?
pub fn chars_eq(a: &Vec<char>, b: &Vec<char>) -> (r: bool)
    ensures
        r == (a@ == b@),
{
    if a.len() != b.len() {
        return false;
    }
    let mut i: usize = 0;
    while i < a.len()
        invariant
            a.len() == b.len(),
            i <= a.len(),
            forall|j: int| 0 <= j < i ==> a@[j] == b@[j],
        decreases a.len() - i,
    {
        if a[i] != b[i] {
            return false;
        }
        i = i + 1;
    }
    assert(a@ =~= b@);
    true
}


/// The pieces of `s` between occurrences of `sep` (`str::split` with a
/// character pattern): `n` separators give `n + 1` pieces, possibly empty.
pub open spec fn split_char(s: Seq<char>, sep: char) -> Seq<Seq<char>>
    decreases s.len(),
{
    if s.len() == 0 {
        seq![Seq::<char>::empty()]
    } else {
        let r = split_char(s.drop_last(), sep);
        if s.last() == sep {
            r.push(Seq::<char>::empty())
        } else {
            r.update(r.len() - 1, r.last().push(s.last()))
        }
    }
}

/// `split_char` never yields an empty list of pieces.
pub proof fn lemma_split_char_nonempty(s: Seq<char>, sep: char)
    ensures
        split_char(s, sep).len() >= 1,
    decreases s.len(),
{
    if s.len() > 0 {
        lemma_split_char_nonempty(s.drop_last(), sep);
    }
}

/// `l` without one trailing carriage return.
pub open spec fn strip_cr(l: Seq<char>) -> Seq<char> {
    if l.len() > 0 && l.last() == '\r' {
        l.drop_last()
    } else {
        l
    }
}

/// The lines of `s` (`str::lines`): split at `\n`; a `\r` right before a
/// `\n` belongs to the line ending; a final line ending is optional.
pub open spec fn lines(s: Seq<char>) -> Seq<Seq<char>> {
    if s.len() == 0 {
        Seq::empty()
    } else if s.last() == '\n' {
        split_char(s.drop_last(), '\n').map_values(|l: Seq<char>| strip_cr(l))
    } else {
        let parts = split_char(s, '\n');
        parts.drop_last().map_values(|l: Seq<char>| strip_cr(l)).push(parts.last())
    }
}

/// The character sequences held by a vector of character vectors.
pub open spec fn views(v: Seq<Vec<char>>) -> Seq<Seq<char>> {
    v.map_values(|x: Vec<char>| x@)
}

/// Splits `s` at every `sep`.
pub fn split_char_exec(s: &Vec<char>, sep: char) -> (r: Vec<Vec<char>>)
    ensures
        views(r@) == split_char(s@, sep),
{
    let mut pieces: Vec<Vec<char>> = Vec::new();
    let mut cur: Vec<char> = Vec::new();
    let mut i: usize = 0;
    assert(s@.take(0) =~= Seq::<char>::empty());
    assert(views(pieces@).push(cur@) =~= split_char(s@.take(0), sep));
    while i < s.len()
        invariant
            i <= s.len(),
            views(pieces@).push(cur@) == split_char(s@.take(i as int), sep),
        decreases s.len() - i,
    {
        let c = s[i];
        let ghost before = views(pieces@).push(cur@);
        assert(s@.take(i + 1).drop_last() =~= s@.take(i as int));
        assert(s@.take(i + 1).last() == c);
        if c == sep {
            pieces.push(cur);
            cur = Vec::new();
            assert(views(pieces@).push(cur@) =~= before.push(Seq::<char>::empty()));
        } else {
            cur.push(c);
            assert(views(pieces@).push(cur@) =~= before.update(
                before.len() - 1,
                before.last().push(c),
            ));
        }
        i = i + 1;
    }
    assert(s@.take(s.len() as int) =~= s@);
    pieces.push(cur);
    pieces
}

/// The lines of `s`.
pub fn lines_exec(s: &Vec<char>) -> (r: Vec<Vec<char>>)
    ensures
        views(r@) == lines(s@),
{
    if s.len() == 0 {
        let r: Vec<Vec<char>> = Vec::new();
        assert(views(r@) =~= lines(s@));
        return r;
    }
    let ends_with_newline = s[s.len() - 1] == '\n';
    let body = if ends_with_newline {
        slice_chars(s, 0, s.len() - 1)
    } else {
        slice_chars(s, 0, s.len())
    };
    assert(s@.subrange(0, s.len() as int) =~= s@);
    assert(s@.subrange(0, s.len() - 1) =~= s@.drop_last());
    let parts = split_char_exec(&body, '\n');
    proof {
        lemma_split_char_nonempty(body@, '\n');
    }
    let n: usize = parts.len();
    let mut r: Vec<Vec<char>> = Vec::new();
    let mut i: usize = 0;
    let ghost dv = views(parts@);
    while i < n
        invariant
            n == parts.len() >= 1,
            dv == views(parts@),
            i <= n,
            views(r@).len() == i,
            forall|k: int|
                0 <= k < i ==> #[trigger] views(r@)[k] == if !ends_with_newline && k == n - 1 {
                    dv[k]
                } else {
                    strip_cr(dv[k])
                },
        decreases n - i,
    {
        let piece = &parts[i];
        let keep_cr = !ends_with_newline && i == n - 1;
        let m: usize = piece.len();
        let line = if !keep_cr && m > 0 && piece[m - 1] == '\r' {
            slice_chars(piece, 0, m - 1)
        } else {
            slice_chars(piece, 0, m)
        };
        proof {
            assert(dv[i as int] == piece@);
            assert(piece@.subrange(0, m as int) =~= piece@);
            if m > 0 {
                assert(piece@.subrange(0, m - 1) =~= piece@.drop_last());
            }
        }
        let ghost old_r = views(r@);
        r.push(line);
        assert(views(r@) =~= old_r.push(line@));
        i = i + 1;
    }
    proof {
        if ends_with_newline {
            assert(views(r@) =~= dv.map_values(|l: Seq<char>| strip_cr(l)));
        } else {
            assert(views(r@) =~= dv.drop_last().map_values(|l: Seq<char>| strip_cr(l)).push(
                dv.last(),
            ));
        }
    }
    r
}


/// The pieces of `s` between the non-overlapping, leftmost occurrences of
/// the non-empty `sep` (`str::split` with a string pattern).
pub open spec fn split_str(s: Seq<char>, sep: Seq<char>) -> Seq<Seq<char>>
    decreases s.len(),
{
    if sep.len() == 0 {
        seq![s]
    } else {
        match find(s, sep) {
            Some(i) => {
                proof {
                    lemma_find_is_first(s, sep);
                }
                seq![s.take(i)] + split_str(s.skip(i + sep.len()), sep)
            },
            None => seq![s],
        }
    }
}

/// `parts` joined, with `sep` between neighbours.
pub open spec fn join(parts: Seq<Seq<char>>, sep: Seq<char>) -> Seq<char>
    decreases parts.len(),
{
    if parts.len() == 0 {
        Seq::empty()
    } else if parts.len() == 1 {
        parts[0]
    } else {
        join(parts.drop_last(), sep) + sep + parts.last()
    }
}

/// Whether `s` starts with `p`.
pub fn starts_with_exec(s: &Vec<char>, p: &Vec<char>) -> (r: bool)
    ensures
        r == p@.is_prefix_of(s@),
{
    assert(s@.skip(0) =~= s@);
    occurs_at_exec(s, p, 0)
}

/// Splits `s` at every occurrence of the non-empty `sep`.
pub fn split_str_exec(s: &Vec<char>, sep: &Vec<char>) -> (r: Vec<Vec<char>>)
    requires
        sep.len() > 0,
    ensures
        views(r@) == split_str(s@, sep@),
{
    let mut pieces: Vec<Vec<char>> = Vec::new();
    let mut start: usize = 0;
    assert(s@.skip(0) =~= s@);
    loop
        invariant
            sep.len() > 0,
            start <= s.len(),
            views(pieces@) + split_str(s@.skip(start as int), sep@) == split_str(s@, sep@),
        decreases s.len() - start,
    {
        let rest = slice_chars(s, start, s.len());
        assert(rest@ =~= s@.skip(start as int));
        match find_exec(&rest, sep) {
            Some(i) => {
                proof {
                    lemma_find_is_first(rest@, sep@);
                }
                let piece = slice_chars(&rest, 0, i);
                let ghost old_pieces = views(pieces@);
                pieces.push(piece);
                proof {
                    assert(views(pieces@) =~= old_pieces.push(rest@.take(i as int)));
                    assert(rest@.skip(i + sep.len()) =~= s@.skip(start + i + sep.len()));
                    assert(split_str(rest@, sep@) == seq![rest@.take(i as int)] + split_str(
                        rest@.skip(i + sep.len()),
                        sep@,
                    ));
                    assert(views(pieces@) + split_str(s@.skip(start + i + sep.len()), sep@)
                        =~= old_pieces + split_str(rest@, sep@));
                }
                start = start + i + sep.len();
            },
            None => {
                let ghost old_pieces = views(pieces@);
                pieces.push(rest);
                assert(views(pieces@) =~= old_pieces + split_str(s@.skip(start as int), sep@));
                return pieces;
            },
        }
    }
}

/// `parts` joined, with `sep` between neighbours.
pub fn join_exec(parts: &Vec<Vec<char>>, sep: &Vec<char>) -> (r: Vec<char>)
    ensures
        r@ == join(views(parts@), sep@),
{
    let ghost ps = views(parts@);
    let mut r: Vec<char> = Vec::new();
    let mut i: usize = 0;
    assert(ps.take(0) =~= Seq::<Seq<char>>::empty());
    while i < parts.len()
        invariant
            ps == views(parts@),
            i <= parts.len(),
            r@ == join(ps.take(i as int), sep@),
        decreases parts.len() - i,
    {
        assert(ps.take(i + 1).drop_last() =~= ps.take(i as int));
        if i > 0 {
            let mut k: usize = 0;
            let ghost r0 = r@;
            while k < sep.len()
                invariant
                    k <= sep.len(),
                    r@ == r0 + sep@.take(k as int),
                decreases sep.len() - k,
            {
                r.push(sep[k]);
                k = k + 1;
                assert(r@ =~= r0 + sep@.take(k as int));
            }
            assert(sep@.take(sep.len() as int) =~= sep@);
        }
        let ghost r1 = r@;
        let mut k: usize = 0;
        while k < parts[i].len()
            invariant
                i < parts.len(),
                k <= parts[i as int].len(),
                r@ == r1 + parts[i as int]@.take(k as int),
            decreases parts[i as int].len() - k,
        {
            r.push(parts[i][k]);
            k = k + 1;
            assert(r@ =~= r1 + parts[i as int]@.take(k as int));
        }
        assert(parts[i as int]@.take(parts[i as int].len() as int) =~= parts[i as int]@);
        if i == 0 {
            assert(r@ =~= join(ps.take(1), sep@));
        }
        i = i + 1;
    }
    assert(ps.take(parts.len() as int) =~= ps);
    r
}

/// `a` followed by `b`.
pub fn concat_chars(a: &Vec<char>, b: &Vec<char>) -> (r: Vec<char>)
    ensures
        r@ == a@ + b@,
{
    let mut r = slice_chars(a, 0, a.len());
    assert(a@.subrange(0, a.len() as int) =~= a@);
    let mut k: usize = 0;
    while k < b.len()
        invariant
            k <= b.len(),
            r@ == a@ + b@.take(k as int),
        decreases b.len() - k,
    {
        r.push(b[k]);
        k = k + 1;
        assert(r@ =~= a@ + b@.take(k as int));
    }
    assert(b@.take(b.len() as int) =~= b@);
    r
}


/// The pieces of `s` between white-space characters (possibly empty).
pub open spec fn split_white_space(s: Seq<char>) -> Seq<Seq<char>>
    decreases s.len(),
{
    if s.len() == 0 {
        seq![Seq::<char>::empty()]
    } else {
        let r = split_white_space(s.drop_last());
        if is_white_space(s.last()) {
            r.push(Seq::<char>::empty())
        } else {
            r.update(r.len() - 1, r.last().push(s.last()))
        }
    }
}

/// The words of `s` (`str::split_whitespace`): the non-empty runs of
/// non-white-space characters, in order.
pub open spec fn words(s: Seq<char>) -> Seq<Seq<char>> {
    split_white_space(s).filter(|w: Seq<char>| w.len() > 0)
}

/// The words of `s`.
pub fn words_exec(s: &Vec<char>) -> (r: Vec<Vec<char>>)
    ensures
        views(r@) == words(s@),
{
    let mut pieces: Vec<Vec<char>> = Vec::new();
    let mut cur: Vec<char> = Vec::new();
    let mut i: usize = 0;
    let ghost pred = |w: Seq<char>| w.len() > 0;
    assert(s@.take(0) =~= Seq::<char>::empty());
    assert(Seq::<Seq<char>>::empty().filter(pred) =~= Seq::<Seq<char>>::empty());
    assert(split_white_space(s@.take(0)) =~= Seq::<Seq<char>>::empty().push(cur@));
    while i < s.len()
        invariant
            i <= s.len(),
            pred == (|w: Seq<char>| w.len() > 0),
            split_white_space(s@.take(i as int)).drop_last().filter(pred) == views(pieces@),
            split_white_space(s@.take(i as int)).len() >= 1,
            split_white_space(s@.take(i as int)).last() == cur@,
        decreases s.len() - i,
    {
        let c = s[i];
        let ghost before = split_white_space(s@.take(i as int));
        assert(s@.take(i + 1).drop_last() =~= s@.take(i as int));
        assert(s@.take(i + 1).last() == c);
        if char_is_whitespace(c) {
            let ghost old_pieces = views(pieces@);
            proof {
                assert(before =~= before.drop_last().push(cur@));
                before.drop_last().lemma_filter_push(cur@, pred);
            }
            if cur.len() > 0 {
                pieces.push(cur);
                assert(views(pieces@) =~= old_pieces.push(before.last()));
            }
            cur = Vec::new();
            assert(split_white_space(s@.take(i + 1)).drop_last() =~= before);
        } else {
            cur.push(c);
            assert(split_white_space(s@.take(i + 1)).drop_last() =~= before.drop_last());
        }
        i = i + 1;
    }
    assert(s@.take(s.len() as int) =~= s@);
    let ghost all = split_white_space(s@);
    proof {
        assert(all =~= all.drop_last().push(cur@));
        all.drop_last().lemma_filter_push(cur@, pred);
    }
    if cur.len() > 0 {
        let ghost old_pieces = views(pieces@);
        pieces.push(cur);
        assert(views(pieces@) =~= old_pieces.push(all.last()));
    }
    pieces
}

} // verus!
