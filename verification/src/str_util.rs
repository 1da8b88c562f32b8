use vstd::prelude::*;
use crate::text::chars_of;
use pinyin::ToPinyin;

verus! {

/// Is `c` inside the CJK Unified Ideographs block (U+4E00 ..= U+9FFF)?
pub open spec fn is_cjk_ideograph(c: char) -> bool {
    '\u{4E00}' <= c && c <= '\u{9FFF}'
}

/// The plain (tone-less) reading that the `pinyin` crate gives a character,
/// or `None` for a character it has no reading for.
pub uninterp spec fn plain_pinyin(c: char) -> Option<Seq<char>>;

/// The readings of the characters of `s` that have one, concatenated.
pub open spec fn pinyin_of(s: Seq<char>) -> Seq<char>
    decreases s.len(),
{
    if s.len() == 0 {
        Seq::empty()
    } else {
        pinyin_of(s.drop_last()) + match plain_pinyin(s.last()) {
            Some(p) => p,
            None => Seq::empty(),
        }
    }
}

/// Calls `pinyin::ToPinyin::to_pinyin` on one character and reads the
/// result's plain style with `Pinyin::plain` (a field read); trusted to give
/// [`plain_pinyin`] of `c`, a function of `c` alone, and no reading for a
/// character below U+3007 (the crate's first data block starts there, and
/// its lookup answers `None` below the first block). Which other characters
/// have a reading, and what it is (the crate's data tables), is left unsaid.
#[verifier::external_body]
fn char_plain_pinyin(c: char) -> (r: Option<String>)
    ensures
        match r {
            Some(s) => plain_pinyin(c) == Some(s@),
            None => plain_pinyin(c) is None,
        },
        c < '\u{3007}' ==> r is None,
{
    c.to_pinyin().map(|p| p.plain().to_string())
}

/// String helpers for Chinese text.
pub struct StrUtil;

impl StrUtil {
    /// Whether `text` holds at least one CJK unified ideograph.
    pub fn contains_chinese(text: &str) -> (r: bool)
        ensures
            r == exists|i: int| 0 <= i < text@.len() && #[trigger] is_cjk_ideograph(text@[i]),
    {
        let chars = chars_of(text);
        let mut i: usize = 0;
        while i < chars.len()
            invariant
                chars@ == text@,
                i <= chars.len(),
                forall|j: int| 0 <= j < i ==> !is_cjk_ideograph(#[trigger] text@[j]),
            decreases chars.len() - i,
        {
            if '\u{4E00}' <= chars[i] && chars[i] <= '\u{9FFF}' {
                assert(is_cjk_ideograph(text@[i as int]));
                return true;
            }
            i = i + 1;
        }
        false
    }

    /// The pinyin of `text`: the plain readings of its characters that have
    /// one, concatenated; other characters are skipped.
    pub fn parse_pinyin(text: &str) -> (r: String)
        ensures
            r@ == pinyin_of(text@),
            (forall|i: int| 0 <= i < text@.len() ==> #[trigger] text@[i] < '\u{3007}') ==> r@.len()
                == 0,
    {
        let chars = chars_of(text);
        let mut out = String::new();
        let mut i: usize = 0;
        assert(chars@.take(0) =~= Seq::<char>::empty());
        while i < chars.len()
            invariant
                chars@ == text@,
                i <= chars.len(),
                out@ == pinyin_of(chars@.take(i as int)),
                (forall|j: int| 0 <= j < text@.len() ==> #[trigger] text@[j] < '\u{3007}')
                    ==> out@.len() == 0,
            decreases chars.len() - i,
        {
            assert(chars@.take(i + 1).drop_last() =~= chars@.take(i as int));
            match char_plain_pinyin(chars[i]) {
                Some(p) => {
                    out.append(p.as_str());
                },
                None => {
                    assert(out@ =~= out@ + Seq::<char>::empty());
                },
            }
            i = i + 1;
        }
        assert(chars@.take(chars.len() as int) =~= chars@);
        out
    }
}

/// Each character is read on its own: the pinyin of two texts one after
/// the other is the pinyin of the first followed by that of the second.
pub proof fn lemma_pinyin_of_concat(a: Seq<char>, b: Seq<char>)
    ensures
        pinyin_of(a + b) == pinyin_of(a) + pinyin_of(b),
    decreases b.len(),
{
    if b.len() == 0 {
        assert(a + b =~= a);
        assert(pinyin_of(a) + pinyin_of(b) =~= pinyin_of(a));
    } else {
        lemma_pinyin_of_concat(a, b.drop_last());
        assert((a + b).drop_last() =~= a + b.drop_last());
        assert((a + b).last() == b.last());
    }
}

} // verus!
