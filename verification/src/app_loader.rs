//! Reading applications from the contents of `.desktop` files.
//!
//! Only the `[Desktop Entry]` part of a file is read; an entry marked
//! `NoDisplay=true` is hidden. Names (default and in the user's language)
//! feed the search key; `Exec`, `Icon` and `Comment` fill the other fields.
use vstd::prelude::*;

use crate::app_usage::AppUsage;
use crate::env::{path_join, path_join_exec, Env};
use crate::model::AppEntry;
use crate::text::{
    chars_eq, chars_of, concat_chars, contains, find_exec, join, join_exec, lines, lines_exec, lowercase,
    slice_chars, split_str, split_str_exec, starts_with_exec, string_of, to_lowercase, views,
};

verus! {

broadcast use vstd::seq_lib::group_seq_properties;

// ---------------------------------------------------------------------------
// Specification
// ---------------------------------------------------------------------------

/// The `[Desktop Entry]` part of a desktop file: the pieces between
/// occurrences of `[Desktop` that start with ` Entry]`, concatenated.
pub open spec fn desktop_section(content: Seq<char>) -> Seq<char> {
    split_str(content, "[Desktop"@).filter(|piece: Seq<char>| " Entry]"@.is_prefix_of(piece)).flatten()
}

/// Some line of `section` holds `NoDisplay=true`.
pub open spec fn is_hidden(section: Seq<char>) -> bool {
    exists|k: int|
        0 <= k < lines(section).len() && contains(#[trigger] lines(section)[k], "NoDisplay=true"@)
}

/// The entry is shown: it has a non-empty `[Desktop Entry]` part that is
/// not hidden.
pub open spec fn is_shown(content: Seq<char>) -> bool {
    desktop_section(content).len() > 0 && !is_hidden(desktop_section(content))
}

/// The lines of the `[Desktop Entry]` part.
pub open spec fn entry_lines(content: Seq<char>) -> Seq<Seq<char>> {
    lines(desktop_section(content))
}

/// `l` starts with both `a` and `b`.
pub open spec fn has_prefixes(l: Seq<char>, a: Seq<char>, b: Seq<char>) -> bool {
    a.is_prefix_of(l) && b.is_prefix_of(l)
}

/// `k` is the first line that starts with both `a` and `b`.
pub open spec fn is_first_line_with(ls: Seq<Seq<char>>, a: Seq<char>, b: Seq<char>, k: int) -> bool {
    0 <= k < ls.len() && has_prefixes(ls[k], a, b) && forall|j: int|
        0 <= j < k ==> !has_prefixes(#[trigger] ls[j], a, b)
}

/// `k` is the last line that starts with both `a` and `b`.
pub open spec fn is_last_line_with(ls: Seq<Seq<char>>, a: Seq<char>, b: Seq<char>, k: int) -> bool {
    0 <= k < ls.len() && has_prefixes(ls[k], a, b) && forall|j: int|
        k < j < ls.len() ==> !has_prefixes(#[trigger] ls[j], a, b)
}

/// Some line starts with both `a` and `b`.
pub open spec fn has_line_with(ls: Seq<Seq<char>>, a: Seq<char>, b: Seq<char>) -> bool {
    exists|k: int| 0 <= k < ls.len() && has_prefixes(#[trigger] ls[k], a, b)
}

/// `l` with the prefix `p` removed.
pub open spec fn after(l: Seq<char>, p: Seq<char>) -> Seq<char> {
    l.skip(p.len() as int)
}

/// The names that line `k` contributes: its default name (`Name=`), then its
/// localized name if it is the first line with the localized prefix.
pub open spec fn line_names(ls: Seq<Seq<char>>, name_prefix: Seq<char>, k: int) -> Seq<Seq<char>> {
    let l = ls[k];
    (if has_prefixes(l, "Name"@, "Name="@) {
        seq![after(l, "Name="@)]
    } else {
        Seq::empty()
    }) + (if is_first_line_with(ls, "Name"@, name_prefix, k) {
        seq![after(l, name_prefix)]
    } else {
        Seq::empty()
    })
}

/// All names of an entry, in line order.
pub open spec fn entry_names(ls: Seq<Seq<char>>, name_prefix: Seq<char>) -> Seq<Seq<char>> {
    Seq::new(ls.len(), |k: int| line_names(ls, name_prefix, k)).flatten()
}

/// A desktop file yields an application: it is shown and has a line
/// starting with `Exec`.
pub open spec fn yields_app(content: Seq<char>) -> bool {
    is_shown(content) && has_line_with(entry_lines(content), "Exec"@, "Exec"@)
}

/// The fields (all but the score) of the application read from a desktop
/// file, given the localized prefixes `Name[lang]=` and `Comment[lang]=`:
/// - `name`: the last of the entry's names, or empty;
/// - `search_key`: all names joined with `,`, lower-cased;
/// - `exec_cmd`: the value of the first `Exec` line if it is `Exec=…`;
/// - `icon`: the value of the first `Icon` line if it is `Icon=…`;
/// - `comment`: the first localized comment, else the last `Comment=` value;
/// - `desktop_file`: the file name.
pub open spec fn app_fields_match(
    filename: Seq<char>,
    content: Seq<char>,
    name_prefix: Seq<char>,
    comment_prefix: Seq<char>,
    app: AppEntry,
) -> bool {
    let ls = entry_lines(content);
    let names = entry_names(ls, name_prefix);
    &&& app.name@ == if names.len() > 0 {
        names.last()
    } else {
        Seq::empty()
    }
    &&& app.search_key@ == lowercase(join(names, ","@))
    &&& forall|k: int|
        is_first_line_with(ls, "Exec"@, "Exec"@, k) ==> app.exec_cmd@ == if "Exec="@.is_prefix_of(
            ls[k],
        ) {
            after(ls[k], "Exec="@)
        } else {
            Seq::empty()
        }
    &&& !has_line_with(ls, "Icon"@, "Icon"@) ==> app.icon is None
    &&& forall|k: int|
        is_first_line_with(ls, "Icon"@, "Icon"@, k) ==> if "Icon="@.is_prefix_of(ls[k]) {
            app.icon is Some && app.icon->0@ == after(ls[k], "Icon="@)
        } else {
            app.icon is None
        }
    &&& forall|k: int|
        is_first_line_with(ls, "Comment"@, comment_prefix, k) ==> app.comment@ == after(
            ls[k],
            comment_prefix,
        )
    &&& !has_line_with(ls, "Comment"@, comment_prefix) ==> forall|k: int|
        is_last_line_with(ls, "Comment"@, "Comment="@, k) ==> app.comment@ == after(
            ls[k],
            "Comment="@,
        )
    &&& !has_line_with(ls, "Comment"@, comment_prefix) && !has_line_with(
        ls,
        "Comment"@,
        "Comment="@,
    ) ==> app.comment@.len() == 0
    &&& app.desktop_file@ == filename
}

/// The localized name prefix `Name[lang]=`.
pub open spec fn name_prefix(language: Seq<char>) -> Seq<char> {
    "Name["@ + language + "]="@
}

/// The localized comment prefix `Comment[lang]=`.
pub open spec fn comment_prefix(language: Seq<char>) -> Seq<char> {
    "Comment["@ + language + "]="@
}

/// The score that a usage record gives a desktop file (0 when unknown).
pub open spec fn usage_score(usage: Map<Seq<char>, u32>, desktop_file: Seq<char>) -> u32 {
    if usage.contains_key(desktop_file) {
        usage[desktop_file]
    } else {
        0
    }
}

/// The file name ends in `.desktop`.
pub open spec fn is_desktop_candidate(name: Seq<char>) -> bool {
    ".desktop"@.is_suffix_of(name)
}

/// `apps` are the applications read from `files` (pairs of file name and
/// content), in file order, one per file that yields an application, each
/// scored from `usage`; `idx` gives the file of each application.
pub open spec fn loaded_from(
    files: Seq<(String, String)>,
    language: Seq<char>,
    usage: Map<Seq<char>, u32>,
    apps: Seq<AppEntry>,
    idx: Seq<int>,
) -> bool {
    &&& idx.len() == apps.len()
    &&& forall|k: int|
        0 <= k < idx.len() ==> {
            &&& 0 <= #[trigger] idx[k] < files.len()
            &&& yields_app(files[idx[k]].1@)
            &&& app_fields_match(
                files[idx[k]].0@,
                files[idx[k]].1@,
                name_prefix(language),
                comment_prefix(language),
                apps[k],
            )
            &&& apps[k].score == usage_score(usage, files[idx[k]].0@)
        }
    &&& forall|k: int, l: int| 0 <= k < l < idx.len() ==> #[trigger] idx[k] < #[trigger] idx[l]
    &&& forall|i: int| 0 <= i < files.len() && yields_app(#[trigger] files[i].1@) ==> idx.contains(i)
}

/// A `NoDisplay=true` anywhere in a line of the `[Desktop Entry]` part hides
/// the entry, wherever that line stands: it is not shown and yields no
/// application.
pub proof fn lemma_no_display_hides(content: Seq<char>, k: int)
    requires
        0 <= k < lines(desktop_section(content)).len(),
        contains(lines(desktop_section(content))[k], "NoDisplay=true"@),
    ensures
        !is_shown(content),
        !yields_app(content),
{
    assert(is_hidden(desktop_section(content)));
}

/// An entry is shown exactly when its `[Desktop Entry]` part is non-empty
/// and no line of it holds `NoDisplay=true`.
pub proof fn lemma_shown_iff_no_no_display(content: Seq<char>)
    ensures
        is_shown(content) <==> desktop_section(content).len() > 0 && forall|k: int|
            0 <= k < lines(desktop_section(content)).len() ==> !contains(
                #[trigger] lines(desktop_section(content))[k],
                "NoDisplay=true"@,
            ),
{
}

/// The default name that line `k` gives (its `Name=` value), if any.
pub open spec fn default_name_of(ls: Seq<Seq<char>>, k: int) -> Seq<Seq<char>> {
    if has_prefixes(ls[k], "Name"@, "Name="@) {
        seq![after(ls[k], "Name="@)]
    } else {
        Seq::empty()
    }
}

/// The localized name that line `k` gives: its value if it is the first line
/// with the localized prefix.
pub open spec fn localized_name_of(ls: Seq<Seq<char>>, name_prefix: Seq<char>, k: int) -> Seq<
    Seq<char>,
> {
    if is_first_line_with(ls, "Name"@, name_prefix, k) {
        seq![after(ls[k], name_prefix)]
    } else {
        Seq::empty()
    }
}

/// The values of the `Name=` lines, in line order.
pub open spec fn default_names(ls: Seq<Seq<char>>) -> Seq<Seq<char>> {
    Seq::new(ls.len(), |k: int| default_name_of(ls, k)).flatten()
}

/// The value of the first line with the localized prefix, if there is one.
pub open spec fn localized_names(ls: Seq<Seq<char>>, name_prefix: Seq<char>) -> Seq<Seq<char>> {
    if has_line_with(ls, "Name"@, name_prefix) {
        seq![after(ls[choose|k: int| is_first_line_with(ls, "Name"@, name_prefix, k)], name_prefix)]
    } else {
        Seq::empty()
    }
}

/// The first `m` lines give the default names of those lines, then the
/// localized name if its line is among them.
proof fn lemma_names_prefix(ls: Seq<Seq<char>>, name_prefix: Seq<char>, f: int, m: int)
    requires
        0 <= m <= ls.len(),
        is_first_line_with(ls, "Name"@, name_prefix, f),
        forall|j: int| 0 <= j < ls.len() && has_prefixes(#[trigger] ls[j], "Name"@, "Name="@) ==> j < f,
    ensures
        Seq::new(m as nat, |k: int| line_names(ls, name_prefix, k)).flatten() == Seq::new(
            m as nat,
            |k: int| default_name_of(ls, k),
        ).flatten() + (if f < m {
            seq![after(ls[f], name_prefix)]
        } else {
            Seq::empty()
        }),
    decreases m,
{
    broadcast use Seq::lemma_flatten_push;

    if m > 0 {
        lemma_names_prefix(ls, name_prefix, f, m - 1);
        let a = Seq::new(m as nat, |k: int| line_names(ls, name_prefix, k));
        let b = Seq::new(m as nat, |k: int| default_name_of(ls, k));
        let a0 = Seq::new((m - 1) as nat, |k: int| line_names(ls, name_prefix, k));
        let b0 = Seq::new((m - 1) as nat, |k: int| default_name_of(ls, k));
        assert(a =~= a0.push(line_names(ls, name_prefix, m - 1)));
        assert(b =~= b0.push(default_name_of(ls, m - 1)));
        let j = m - 1;
        if j != f {
            assert(!is_first_line_with(ls, "Name"@, name_prefix, j));
        }
        if j >= f {
            assert(!has_prefixes(ls[j], "Name"@, "Name="@));
        }
        assert(line_names(ls, name_prefix, j) =~= default_name_of(ls, j) + localized_name_of(
            ls,
            name_prefix,
            j,
        ));
    }
}

/// When every `Name=` line comes before the first line with the localized
/// prefix, the names of an entry are its default names in line order
/// followed by the localized name (so the application's name is the
/// localized name when there is one, else the last default name).
pub proof fn lemma_names_defaults_then_localized(ls: Seq<Seq<char>>, name_prefix: Seq<char>)
    requires
        forall|j: int, k: int|
            0 <= j < ls.len() && has_prefixes(#[trigger] ls[j], "Name"@, "Name="@)
                && #[trigger] is_first_line_with(ls, "Name"@, name_prefix, k) ==> j < k,
    ensures
        entry_names(ls, name_prefix) == default_names(ls) + localized_names(ls, name_prefix),
{
    if has_line_with(ls, "Name"@, name_prefix) {
        let w: int = choose|k: int| 0 <= k < ls.len() && has_prefixes(#[trigger] ls[k], "Name"@, name_prefix);
        lemma_first_line_exists(ls, name_prefix, w);
        let f: int = choose|k: int| is_first_line_with(ls, "Name"@, name_prefix, k);
        lemma_names_prefix(ls, name_prefix, f, ls.len() as int);
    } else {
        assert forall|k: int| 0 <= k < ls.len() implies #[trigger] line_names(ls, name_prefix, k)
            =~= default_name_of(ls, k) by {
            assert(!has_prefixes(ls[k], "Name"@, name_prefix));
        }
        assert(Seq::new(ls.len(), |k: int| line_names(ls, name_prefix, k)) =~= Seq::new(
            ls.len(),
            |k: int| default_name_of(ls, k),
        ));
        assert(default_names(ls) + localized_names(ls, name_prefix) =~= default_names(ls));
    }
}

/// A line with both prefixes at `m` implies a first such line exists.
proof fn lemma_first_line_exists(ls: Seq<Seq<char>>, name_prefix: Seq<char>, m: int)
    requires
        0 <= m < ls.len(),
        has_prefixes(ls[m], "Name"@, name_prefix),
    ensures
        exists|k: int| is_first_line_with(ls, "Name"@, name_prefix, k),
    decreases m,
{
    if forall|j: int| 0 <= j < m ==> !has_prefixes(#[trigger] ls[j], "Name"@, name_prefix) {
        assert(is_first_line_with(ls, "Name"@, name_prefix, m));
    } else {
        let j: int = choose|j: int| 0 <= j < m && has_prefixes(#[trigger] ls[j], "Name"@, name_prefix);
        lemma_first_line_exists(ls, name_prefix, j);
    }
}

// ---------------------------------------------------------------------------
// Executable helpers
// ---------------------------------------------------------------------------

/// Index of the first line starting with `a` and `b`.
fn first_line_with(ls: &Vec<Vec<char>>, a: &Vec<char>, b: &Vec<char>) -> (r: Option<usize>)
    ensures
        r matches Some(k) ==> is_first_line_with(views(ls@), a@, b@, k as int),
        r is None ==> !has_line_with(views(ls@), a@, b@),
{
    let ghost vs = views(ls@);
    let mut i: usize = 0;
    while i < ls.len()
        invariant
            vs == views(ls@),
            i <= ls.len(),
            forall|j: int| 0 <= j < i ==> !has_prefixes(#[trigger] vs[j], a@, b@),
        decreases ls.len() - i,
    {
        if starts_with_exec(&ls[i], a) && starts_with_exec(&ls[i], b) {
            return Some(i);
        }
        i = i + 1;
    }
    None
}

/// Index of the last line starting with `a` and `b`.
fn last_line_with(ls: &Vec<Vec<char>>, a: &Vec<char>, b: &Vec<char>) -> (r: Option<usize>)
    ensures
        r matches Some(k) ==> is_last_line_with(views(ls@), a@, b@, k as int),
        r is None ==> !has_line_with(views(ls@), a@, b@),
{
    let ghost vs = views(ls@);
    let mut i: usize = ls.len();
    while i > 0
        invariant
            vs == views(ls@),
            i <= ls.len(),
            forall|j: int| i <= j < ls.len() ==> !has_prefixes(#[trigger] vs[j], a@, b@),
        decreases i,
    {
        if starts_with_exec(&ls[i - 1], a) && starts_with_exec(&ls[i - 1], b) {
            return Some(i - 1);
        }
        i = i - 1;
    }
    None
}

/// `l` without its first `n` characters.
fn drop_prefix(l: &Vec<char>, n: usize) -> (r: Vec<char>)
    requires
        n <= l.len(),
    ensures
        r@ == l@.skip(n as int),
{
    let r = slice_chars(l, n, l.len());
    assert(r@ =~= l@.skip(n as int));
    r
}

/// Whether some line of `section` holds `NoDisplay=true`.
fn hidden_exec(section: &Vec<char>) -> (r: bool)
    ensures
        r == is_hidden(section@),
{
    let ls = lines_exec(section);
    let marker = chars_of("NoDisplay=true");
    let ghost vs = views(ls@);
    let mut i: usize = 0;
    while i < ls.len()
        invariant
            vs == views(ls@),
            vs == lines(section@),
            marker@ == "NoDisplay=true"@,
            i <= ls.len(),
            forall|j: int| 0 <= j < i ==> !contains(#[trigger] vs[j], marker@),
        decreases ls.len() - i,
    {
        if find_exec(&ls[i], &marker).is_some() {
            assert(contains(vs[i as int], marker@));
            return true;
        }
        i = i + 1;
    }
    false
}

/// The `[Desktop Entry]` part of `content`.
fn desktop_section_exec(content: &Vec<char>) -> (r: Vec<char>)
    ensures
        r@ == desktop_section(content@),
{
    let sep = chars_of("[Desktop");
    let head = chars_of(" Entry]");
    proof {
        reveal_strlit("[Desktop");
    }
    let pieces = split_str_exec(content, &sep);
    let ghost ps = views(pieces@);
    let ghost pred = |piece: Seq<char>| " Entry]"@.is_prefix_of(piece);
    let mut out: Vec<char> = Vec::new();
    let mut i: usize = 0;
    assert(ps.take(0) =~= Seq::<Seq<char>>::empty());
    assert(Seq::<Seq<char>>::empty().filter(pred) =~= Seq::<Seq<char>>::empty());
    while i < pieces.len()
        invariant
            ps == views(pieces@),
            ps == split_str(content@, "[Desktop"@),
            head@ == " Entry]"@,
            pred == (|piece: Seq<char>| " Entry]"@.is_prefix_of(piece)),
            i <= pieces.len(),
            out@ == ps.take(i as int).filter(pred).flatten(),
        decreases pieces.len() - i,
    {
        assert(ps.take(i + 1) =~= ps.take(i as int).push(ps[i as int]));
        proof {
            ps.take(i as int).lemma_filter_push(ps[i as int], pred);
            ps.take(i as int).filter(pred).lemma_flatten_push(ps[i as int]);
        }
        if starts_with_exec(&pieces[i], &head) {
            out = concat_chars(&out, &pieces[i]);
        }
        i = i + 1;
    }
    assert(ps.take(pieces.len() as int) =~= ps);
    out
}

/// The values of `ls[k]` after the prefix `p`, if it starts with `a` and `p`.
fn value_after(l: &Vec<char>, a: &Vec<char>, p: &Vec<char>) -> (r: Option<Vec<char>>)
    ensures
        has_prefixes(l@, a@, p@) ==> r is Some && r->0@ == after(l@, p@),
        !has_prefixes(l@, a@, p@) ==> r is None,
{
    if starts_with_exec(l, a) && starts_with_exec(l, p) {
        Some(drop_prefix(l, p.len()))
    } else {
        None
    }
}

/// An owned copy of `v`.
fn copy_chars(v: &Vec<char>) -> (r: Vec<char>)
    ensures
        r@ == v@,
{
    let r = slice_chars(v, 0, v.len());
    assert(v@.subrange(0, v.len() as int) =~= v@);
    r
}

/// The names of the entry whose lines are `ls`.
fn entry_names_exec(ls: &Vec<Vec<char>>, name_prefix: &Vec<char>) -> (r: Vec<Vec<char>>)
    ensures
        views(r@) == entry_names(views(ls@), name_prefix@),
{
    let ghost vs = views(ls@);
    let name = chars_of("Name");
    let name_eq = chars_of("Name=");
    let mut names: Vec<Vec<char>> = Vec::new();
    let mut found = false;
    let mut i: usize = 0;
    let ghost f = |k: int| line_names(vs, name_prefix@, k);
    assert(Seq::new(0, f).flatten() =~= Seq::<Seq<char>>::empty());
    while i < ls.len()
        invariant
            vs == views(ls@),
            name@ == "Name"@,
            name_eq@ == "Name="@,
            f == (|k: int| line_names(vs, name_prefix@, k)),
            i <= ls.len(),
            views(names@) == Seq::new(i as nat, f).flatten(),
            found <==> exists|j: int| 0 <= j < i && has_prefixes(#[trigger] vs[j], name@, name_prefix@),
        decreases ls.len() - i,
    {
        let l = &ls[i];
        let ghost before = views(names@);
        let mut added: Vec<Vec<char>> = Vec::new();
        if let Some(v) = value_after(l, &name, &name_eq) {
            added.push(v);
        }
        let ghost first_part = views(added@);
        let mut now_found = found;
        if !found {
            if let Some(v) = value_after(l, &name, name_prefix) {
                added.push(v);
                now_found = true;
            }
        }
        proof {
            assert(vs[i as int] == l@);
            if found {
                let j: int = choose|j: int| 0 <= j < i && has_prefixes(#[trigger] vs[j], name@, name_prefix@);
                assert(!is_first_line_with(vs, "Name"@, name_prefix@, i as int));
            } else {
                assert(has_prefixes(l@, name@, name_prefix@) == is_first_line_with(
                    vs,
                    "Name"@,
                    name_prefix@,
                    i as int,
                ));
            }
            assert(views(added@) =~= f(i as int));
            assert(Seq::new((i + 1) as nat, f) =~= Seq::new(i as nat, f).push(f(i as int)));
            Seq::new(i as nat, f).lemma_flatten_push(f(i as int));
        }
        let mut k: usize = 0;
        let ghost n0 = views(names@);
        while k < added.len()
            invariant
                k <= added.len(),
                views(names@) == n0 + views(added@).take(k as int),
            decreases added.len() - k,
        {
            let ghost prev = views(names@);
            let c = copy_chars(&added[k]);
            names.push(c);
            assert(views(names@) =~= prev.push(added@[k as int]@));
            assert(views(added@).take(k + 1) =~= views(added@).take(k as int).push(added@[k as int]@));
            k = k + 1;
            assert(views(names@) =~= n0 + views(added@).take(k as int));
        }
        assert(views(added@).take(added.len() as int) =~= views(added@));
        found = now_found;
        i = i + 1;
        assert(found <==> exists|j: int| 0 <= j < i && has_prefixes(#[trigger] vs[j], name@, name_prefix@));
    }
    assert(Seq::new(ls.len() as nat, f) =~= Seq::new(vs.len(), |k: int| line_names(vs, name_prefix@, k)));
    names
}

/// The command of the entry with lines `ls`: the value of its first `Exec`
/// line if that is `Exec=…`, else empty; `None` without an `Exec` line.
fn exec_value(ls: &Vec<Vec<char>>) -> (r: Option<String>)
    ensures
        r is None <==> !has_line_with(views(ls@), "Exec"@, "Exec"@),
        forall|k: int|
            is_first_line_with(views(ls@), "Exec"@, "Exec"@, k) ==> r is Some && r->0@ == if "Exec="@.is_prefix_of(
                views(ls@)[k],
            ) {
                after(views(ls@)[k], "Exec="@)
            } else {
                Seq::empty()
            },
{
    let exec_key = chars_of("Exec");
    let exec_eq = chars_of("Exec=");
    proof {
        reveal_strlit("Exec");
        reveal_strlit("Exec=");
    }
    match first_line_with(ls, &exec_key, &exec_key) {
        None => None,
        Some(k) => {
            assert(views(ls@)[k as int] == ls@[k as int]@);
            match value_after(&ls[k], &exec_key, &exec_eq) {
                Some(v) => Some(string_of(&v)),
                None => Some(String::new()),
            }
        },
    }
}

/// The icon of the entry with lines `ls`: the value of its first `Icon` line
/// if that is `Icon=…`.
fn icon_value(ls: &Vec<Vec<char>>) -> (r: Option<String>)
    ensures
        !has_line_with(views(ls@), "Icon"@, "Icon"@) ==> r is None,
        forall|k: int|
            is_first_line_with(views(ls@), "Icon"@, "Icon"@, k) ==> if "Icon="@.is_prefix_of(
                views(ls@)[k],
            ) {
                r is Some && r->0@ == after(views(ls@)[k], "Icon="@)
            } else {
                r is None
            },
{
    let icon_key = chars_of("Icon");
    let icon_eq = chars_of("Icon=");
    proof {
        reveal_strlit("Icon");
        reveal_strlit("Icon=");
    }
    match first_line_with(ls, &icon_key, &icon_key) {
        None => None,
        Some(k) => {
            assert(views(ls@)[k as int] == ls@[k as int]@);
            match value_after(&ls[k], &icon_key, &icon_eq) {
                Some(v) => Some(string_of(&v)),
                None => None,
            }
        },
    }
}

/// The comment of the entry with lines `ls`: the first localized comment
/// (prefix `cp`), else the last `Comment=` value, else empty.
fn comment_value(ls: &Vec<Vec<char>>, cp: &Vec<char>) -> (r: String)
    ensures
        forall|k: int|
            is_first_line_with(views(ls@), "Comment"@, cp@, k) ==> r@ == after(views(ls@)[k], cp@),
        !has_line_with(views(ls@), "Comment"@, cp@) ==> forall|k: int|
            is_last_line_with(views(ls@), "Comment"@, "Comment="@, k) ==> r@ == after(
                views(ls@)[k],
                "Comment="@,
            ),
        !has_line_with(views(ls@), "Comment"@, cp@) && !has_line_with(
            views(ls@),
            "Comment"@,
            "Comment="@,
        ) ==> r@.len() == 0,
{
    let comment_key = chars_of("Comment");
    let comment_eq = chars_of("Comment=");
    match first_line_with(ls, &comment_key, cp) {
        Some(k) => {
            assert(views(ls@)[k as int] == ls@[k as int]@);
            string_of(&drop_prefix(&ls[k], cp.len()))
        },
        None => match last_line_with(ls, &comment_key, &comment_eq) {
            Some(k) => {
                assert(views(ls@)[k as int] == ls@[k as int]@);
                string_of(&drop_prefix(&ls[k], comment_eq.len()))
            },
            None => String::new(),
        },
    }
}

/// Application launcher: reads applications from desktop files.
pub struct AppLoader;

impl AppLoader {
    /// The `[Desktop Entry]` part of a desktop file, unless it is missing,
    /// empty, or hidden with `NoDisplay=true`.
    pub fn check_desktop(content: &str) -> (r: Option<String>)
        ensures
            r is Some <==> is_shown(content@),
            r matches Some(s) ==> s@ == desktop_section(content@),
    {
        let chars = chars_of(content);
        let section = desktop_section_exec(&chars);
        if section.len() == 0 {
            return None;
        }
        if hidden_exec(&section) {
            return None;
        }
        Some(string_of(&section))
    }

    /// Reads the application described by the desktop file `filename` with
    /// the given `content`; `env_name_prefix` and `env_comment_prefix` are the
    /// localized keys (`Name[lang]=`, `Comment[lang]=`). `None` where the
    /// entry is not shown or has no `Exec` line.
    pub fn parse_desktop_generate_app_entry(
        filename: &str,
        content: &str,
        env_name_prefix: &str,
        env_comment_prefix: &str,
    ) -> (r: Option<AppEntry>)
        ensures
            r is Some <==> yields_app(content@),
            r matches Some(app) ==> app_fields_match(
                filename@,
                content@,
                env_name_prefix@,
                env_comment_prefix@,
                app,
            ) && app.score == 0,
    {
        let section = match Self::check_desktop(content) {
            Some(s) => s,
            None => return None,
        };
        let sec_chars = chars_of(section.as_str());
        let ls = lines_exec(&sec_chars);
        let np = chars_of(env_name_prefix);
        let cp = chars_of(env_comment_prefix);

        let names = entry_names_exec(&ls, &np);
        let comma = chars_of(",");
        let joined = join_exec(&names, &comma);
        let search_key = to_lowercase(string_of(&joined).as_str());
        let name = if names.len() > 0 {
            string_of(&names[names.len() - 1])
        } else {
            String::new()
        };

        let exec_cmd = match exec_value(&ls) {
            Some(v) => v,
            None => return None,
        };
        let icon = icon_value(&ls);
        let comment = comment_value(&ls, &cp);
        let app = AppEntry {
            name,
            exec_cmd,
            desktop_file: filename.to_owned(),
            search_key,
            comment,
            icon,
            score: 0,
        };
        Some(app)
    }
}

impl AppLoader {
    /// Whether a directory entry named `file_name` is read: only files whose
    /// name ends in `.desktop` are.
    pub fn is_desktop_file_name(file_name: &str) -> (r: bool)
        ensures
            r == is_desktop_candidate(file_name@),
    {
        let name = chars_of(file_name);
        let suffix = chars_of(".desktop");
        if name.len() < suffix.len() {
            return false;
        }
        let tail = drop_prefix(&name, name.len() - suffix.len());
        let r = chars_eq(&tail, &suffix);
        assert(tail@ =~= name@.subrange(name@.len() - suffix@.len(), name@.len() as int));
        r
    }

    /// The directories searched for desktop files by default: the system
    /// and snap application directories and `~/.local/share/applications`.
    pub fn default_desktop_scan_paths(env: &Env) -> (r: Vec<String>)
        ensures
            r@.len() == 3,
            r@[0]@ == "/usr/share/applications"@,
            r@[1]@ == "/var/lib/snapd/desktop/applications"@,
            r@[2]@ == path_join(env.home_dir@, ".local/share/applications"@),
    {
        let mut r: Vec<String> = Vec::new();
        r.push("/usr/share/applications".to_owned());
        r.push("/var/lib/snapd/desktop/applications".to_owned());
        r.push(path_join_exec(env.home_dir.as_str(), ".local/share/applications"));
        r
    }

    /// The applications described by `files` (pairs of desktop file name and
    /// content) for the user's `language`, scored from `usage`.
    pub fn load_from_files(files: &Vec<(String, String)>, language: &str, usage: &AppUsage) -> (r:
        Vec<AppEntry>)
        ensures
            exists|idx: Seq<int>| loaded_from(files@, language@, usage@, r@, idx),
    {
        let lang = chars_of(language);
        let np = string_of(&concat_chars(&concat_chars(&chars_of("Name["), &lang), &chars_of("]=")));
        let cp = string_of(
            &concat_chars(&concat_chars(&chars_of("Comment["), &lang), &chars_of("]=")),
        );
        let usage_is_empty = usage.is_empty();
        let mut apps: Vec<AppEntry> = Vec::new();
        let ghost mut idx: Seq<int> = Seq::empty();
        let mut i: usize = 0;
        while i < files.len()
            invariant
                i <= files.len(),
                np@ == name_prefix(language@),
                cp@ == comment_prefix(language@),
                usage_is_empty == (usage@.dom() == Set::<Seq<char>>::empty()),
                idx.len() == apps@.len(),
                forall|k: int|
                    0 <= k < idx.len() ==> {
                        &&& 0 <= #[trigger] idx[k] < i
                        &&& yields_app(files@[idx[k]].1@)
                        &&& app_fields_match(
                            files@[idx[k]].0@,
                            files@[idx[k]].1@,
                            name_prefix(language@),
                            comment_prefix(language@),
                            apps@[k],
                        )
                        &&& apps@[k].score == usage_score(usage@, files@[idx[k]].0@)
                    },
                forall|k: int, l: int|
                    0 <= k < l < idx.len() ==> #[trigger] idx[k] < #[trigger] idx[l],
                forall|j: int| 0 <= j < i && yields_app(#[trigger] files@[j].1@) ==> idx.contains(j),
            decreases files.len() - i,
        {
            let (filename, content) = &files[i];
            match Self::parse_desktop_generate_app_entry(
                filename.as_str(),
                content.as_str(),
                np.as_str(),
                cp.as_str(),
            ) {
                Some(app) => {
                    let mut app = app;
                    if !usage_is_empty {
                        app.score = match usage.get(app.desktop_file.as_str()) {
                            Some(s) => s,
                            None => 0,
                        };
                    } else {
                        proof {
                            assert(!usage@.dom().contains(filename@));
                        }
                    }
                    apps.push(app);
                    proof {
                        let old_idx = idx;
                        idx = idx.push(i as int);
                        assert forall|j: int|
                            0 <= j < i + 1 && yields_app(#[trigger] files@[j].1@) implies idx.contains(
                            j,
                        ) by {
                            if j < i {
                                let k: int = choose|k: int| 0 <= k < old_idx.len() && old_idx[k] == j;
                                assert(idx[k] == j);
                            } else {
                                assert(idx[idx.len() - 1] == j);
                            }
                        }
                    }
                },
                None => {
                    proof {
                        assert forall|j: int|
                            0 <= j < i + 1 && yields_app(#[trigger] files@[j].1@) implies idx.contains(
                            j,
                        ) by {
                            if j == i {
                                assert(!yields_app(files@[j].1@));
                            }
                        }
                    }
                },
            }
            i = i + 1;
        }
        proof {
            assert(loaded_from(files@, language@, usage@, apps@, idx));
        }
        apps
    }
}

} // verus!
