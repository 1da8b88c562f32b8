//! The user's environment: home directory, project name and language.
use vstd::prelude::*;

use crate::text::{chars_of, slice_chars, split_char, string_of};

verus! {

/// Name of the directory under `~/.config` that holds the usage data.
pub const ROOT_PROJECT_NAME: &'static str = "jz-launcher";

/// Name of this package, recorded in [`Env::project_name`].
pub const PACKAGE_NAME: &'static str = "launcher-core";

/// Locale assumed when neither `LANG` nor `LC_MESSAGES` is set.
pub const DEFAULT_LOCALE: &'static str = "en_US.UTF-8";

/// `base` with the relative or absolute path `rel` appended, as
/// `PathBuf::push` does on Unix: an absolute `rel` replaces `base`; otherwise
/// a `/` separates the two unless `base` is empty or already ends in `/`.
pub open spec fn path_join(base: Seq<char>, rel: Seq<char>) -> Seq<char> {
    if rel.len() > 0 && rel[0] == '/' {
        rel
    } else if base.len() == 0 || base.last() == '/' {
        base + rel
    } else {
        base + seq!['/'] + rel
    }
}

/// The language part of a locale such as `zh_CN.UTF-8`: everything before
/// the first `.`.
pub open spec fn locale_language(locale: Seq<char>) -> Seq<char> {
    split_char(locale, '.')[0]
}

/// `base` joined with `rel` as a path.
pub fn path_join_exec(base: &str, rel: &str) -> (r: String)
    ensures
        r@ == path_join(base@, rel@),
{
    let b = chars_of(base);
    let rl = chars_of(rel);
    let mut out = slice_chars(&b, 0, b.len());
    assert(b@.subrange(0, b.len() as int) =~= b@);
    if rl.len() > 0 && rl[0] == '/' {
        return string_of(&rl);
    }
    if b.len() > 0 && b[b.len() - 1] != '/' {
        out.push('/');
    }
    let mut k: usize = 0;
    let ghost o0 = out@;
    while k < rl.len()
        invariant
            k <= rl.len(),
            out@ == o0 + rl@.take(k as int),
        decreases rl.len() - k,
    {
        out.push(rl[k]);
        k = k + 1;
        assert(out@ =~= o0 + rl@.take(k as int));
    }
    assert(rl@.take(rl.len() as int) =~= rl@);
    proof {
        if b.len() > 0 && b@.last() != '/' {
            assert(out@ =~= b@ + seq!['/'] + rl@);
        } else {
            assert(out@ =~= b@ + rl@);
        }
    }
    string_of(&out)
}

/// The user's environment.
#[derive(Debug)]
pub struct Env {
    /// Home directory.
    pub home_dir: String,
    /// Name of this package.
    pub project_name: String,
    /// Language of the user's locale, such as `zh_CN`.
    pub language: String,
}

impl Default for Env {
    fn default() -> (r: Self)
        ensures
            r.home_dir@.len() == 0,
            r.project_name@.len() == 0,
            r.language@.len() == 0,
    {
        Env { home_dir: String::new(), project_name: String::new(), language: String::new() }
    }
}

impl Env {
    /// The language to use, from the values of `LANG` and `LC_MESSAGES`
    /// (`None` where a variable is unset): the first that is set, else
    /// [`DEFAULT_LOCALE`], cut at its first `.`.
    pub fn parse_language(lang: Option<String>, lc_messages: Option<String>) -> (r: String)
        ensures
            r@ == locale_language(
                match lang {
                    Some(l) => l@,
                    None => match lc_messages {
                        Some(m) => m@,
                        None => DEFAULT_LOCALE@,
                    },
                },
            ),
    {
        let locale: String = match lang {
            Some(l) => l,
            None => match lc_messages {
                Some(m) => m,
                None => DEFAULT_LOCALE.to_owned(),
            },
        };
        let chars = chars_of(locale.as_str());
        let mut i: usize = 0;
        while i < chars.len() && chars[i] != '.'
            invariant
                i <= chars.len(),
                forall|j: int| 0 <= j < i ==> chars@[j] != '.',
            decreases chars.len() - i,
        {
            i = i + 1;
        }
        proof {
            lemma_split_first_piece(chars@, '.', i as int);
        }
        let first = slice_chars(&chars, 0, i);
        string_of(&first)
    }

    /// An environment for the home directory `home_dir` and the locale
    /// variables `lang` (`LANG`) and `lc_messages` (`LC_MESSAGES`).
    pub fn from_parts(home_dir: String, lang: Option<String>, lc_messages: Option<String>) -> (r:
        Self)
        ensures
            r.home_dir@ == home_dir@,
            r.project_name@ == PACKAGE_NAME@,
            r.language@ == locale_language(
                match lang {
                    Some(l) => l@,
                    None => match lc_messages {
                        Some(m) => m@,
                        None => DEFAULT_LOCALE@,
                    },
                },
            ),
    {
        Env {
            home_dir,
            project_name: PACKAGE_NAME.to_owned(),
            language: Self::parse_language(lang, lc_messages),
        }
    }

    /// Directory that holds the usage data: `~/.config/jz-launcher`.
    pub fn usage_dir(&self) -> (r: String)
        ensures
            r@ == path_join(self.home_dir@, ".config/jz-launcher"@),
    {
        path_join_exec(self.home_dir.as_str(), ".config/jz-launcher")
    }

    /// Path of the usage data file: `~/.config/jz-launcher/usage.json`.
    pub fn usage_file_path(&self) -> (r: String)
        ensures
            r@ == path_join(path_join(self.home_dir@, ".config/jz-launcher"@), "usage.json"@),
    {
        let dir = self.usage_dir();
        path_join_exec(dir.as_str(), "usage.json")
    }
}

/// The first piece of a split ends before the first separator.
proof fn lemma_split_first_piece(s: Seq<char>, sep: char, i: int)
    requires
        0 <= i <= s.len(),
        forall|j: int| 0 <= j < i ==> s[j] != sep,
        i < s.len() ==> s[i] == sep,
    ensures
        split_char(s, sep)[0] == s.take(i),
    decreases s.len(),
{
    crate::text::lemma_split_char_nonempty(s, sep);
    if s.len() == 0 {
        assert(s.take(0) =~= Seq::<char>::empty());
    } else if i == s.len() {
        lemma_split_first_piece(s.drop_last(), sep, i - 1);
        crate::text::lemma_split_char_nonempty(s.drop_last(), sep);
        lemma_split_single_piece(s.drop_last(), sep);
        assert(s.drop_last().take(i - 1).push(s.last()) =~= s.take(i));
    } else {
        lemma_split_first_piece(s.drop_last(), sep, i);
        crate::text::lemma_split_char_nonempty(s.drop_last(), sep);
        assert(s.drop_last().take(i) =~= s.take(i));
        if i < s.len() - 1 {
            lemma_split_many_pieces(s.drop_last(), sep, i);
        }
    }
}

/// Without any separator, splitting yields the whole sequence as one piece.
proof fn lemma_split_single_piece(s: Seq<char>, sep: char)
    requires
        forall|j: int| 0 <= j < s.len() ==> s[j] != sep,
    ensures
        split_char(s, sep) == seq![s],
    decreases s.len(),
{
    if s.len() == 0 {
        assert(s =~= Seq::<char>::empty());
    } else {
        lemma_split_single_piece(s.drop_last(), sep);
        assert(s.drop_last().push(s.last()) =~= s);
        assert(seq![s.drop_last()].update(0, s.drop_last().push(s.last())) =~= seq![s]);
    }
}

/// With a separator at `i`, splitting yields at least two pieces.
proof fn lemma_split_many_pieces(s: Seq<char>, sep: char, i: int)
    requires
        0 <= i < s.len(),
        s[i] == sep,
    ensures
        split_char(s, sep).len() >= 2,
    decreases s.len(),
{
    crate::text::lemma_split_char_nonempty(s.drop_last(), sep);
    if i < s.len() - 1 {
        lemma_split_many_pieces(s.drop_last(), sep, i);
    }
}

/// Whatever the home directory, the usage file path ends with the path
/// components `.config/jz-launcher/usage.json`.
pub proof fn lemma_usage_file_path_suffix(home: Seq<char>)
    ensures
        ({
            let p = path_join(path_join(home, ".config/jz-launcher"@), "usage.json"@);
            let tail = ".config/jz-launcher/usage.json"@;
            &&& tail.is_suffix_of(p)
            &&& (p.len() == tail.len() || p[p.len() - tail.len() - 1] == '/')
        }),
{
    reveal_strlit(".config/jz-launcher");
    reveal_strlit("usage.json");
    reveal_strlit(".config/jz-launcher/usage.json");
    let dir = path_join(home, ".config/jz-launcher"@);
    let p = path_join(dir, "usage.json"@);
    let tail = ".config/jz-launcher/usage.json"@;
    assert(dir.len() > 0 && dir.last() != '/');
    assert(p == dir + seq!['/'] + "usage.json"@);
    if home.len() == 0 || home.last() == '/' {
        assert(p.subrange(p.len() - tail.len(), p.len() as int) =~= tail);
    } else {
        assert(p.subrange(p.len() - tail.len(), p.len() as int) =~= tail);
    }
}

} // verus!
