//! Decisions behind the settings window: the edited list of desktop
//! directories and the recorded keyboard shortcut.
use vstd::prelude::*;

use crate::text::{
    chars_of, concat_chars, join, join_exec, lemma_split_char_join, lemma_trimmed_last, strip_cr, lines, lines_exec, lowercase, string_of, to_lowercase, trim, trim_chars,
    views,
};

verus! {

/// The directories typed into the settings window, one per line: blank
/// lines are dropped and the others trimmed.
pub open spec fn desktop_paths(text: Seq<char>) -> Seq<Seq<char>> {
    lines(text).filter(|l: Seq<char>| trim(l).len() > 0).map_values(|l: Seq<char>| trim(l))
}

/// The text shown in the desktop paths editor: one directory per line.
pub fn desktop_paths_to_text(paths: &Vec<String>) -> (r: String)
    ensures
        r@ == join(paths@.map_values(|s: String| s@), "\n"@),
{
    let mut parts: Vec<Vec<char>> = Vec::new();
    let mut i: usize = 0;
    while i < paths.len()
        invariant
            i <= paths.len(),
            parts@.len() == i,
            views(parts@) == paths@.take(i as int).map_values(|s: String| s@),
        decreases paths.len() - i,
    {
        let ghost before = parts@;
        parts.push(chars_of(paths[i].as_str()));
        assert(parts@ =~= before.push(parts@[i as int]));
        assert(views(parts@) =~= views(before).push(paths@[i as int]@));
        assert(paths@.take(i + 1) =~= paths@.take(i as int).push(paths@[i as int]));
        assert(views(parts@) =~= paths@.take(i + 1).map_values(|s: String| s@));
        i = i + 1;
    }
    assert(paths@.take(paths.len() as int) =~= paths@);
    let sep = chars_of("\n");
    string_of(&join_exec(&parts, &sep))
}

/// The directories in the text of the desktop paths editor.
pub fn desktop_paths_from_text(text: &str) -> (r: Vec<String>)
    ensures
        r@.map_values(|s: String| s@) == desktop_paths(text@),
{
    let chars = chars_of(text);
    let ls = lines_exec(&chars);
    let ghost vs = views(ls@);
    let ghost pred = |l: Seq<char>| trim(l).len() > 0;
    let mut r: Vec<String> = Vec::new();
    let mut i: usize = 0;
    assert(vs.take(0) =~= Seq::<Seq<char>>::empty());
    assert(Seq::<Seq<char>>::empty().filter(pred) =~= Seq::<Seq<char>>::empty());
    assert(r@.map_values(|s: String| s@) =~= Seq::<Seq<char>>::empty());
    while i < ls.len()
        invariant
            vs == views(ls@),
            vs == lines(text@),
            pred == (|l: Seq<char>| trim(l).len() > 0),
            i <= ls.len(),
            r@.map_values(|s: String| s@) == vs.take(i as int).filter(pred).map_values(
                |l: Seq<char>| trim(l),
            ),
        decreases ls.len() - i,
    {
        let t = trim_chars(&ls[i]);
        proof {
            assert(vs.take(i + 1) =~= vs.take(i as int).push(vs[i as int]));
            vs.take(i as int).lemma_filter_push(vs[i as int], pred);
        }
        let ghost before = r@.map_values(|s: String| s@);
        if t.len() > 0 {
            r.push(string_of(&t));
            assert(r@.map_values(|s: String| s@) =~= before.push(trim(vs[i as int])));
            assert(vs.take(i as int).filter(pred).push(vs[i as int]).map_values(
                |l: Seq<char>| trim(l),
            ) =~= vs.take(i as int).filter(pred).map_values(|l: Seq<char>| trim(l)).push(
                trim(vs[i as int]),
            ));
        }
        i = i + 1;
    }
    assert(vs.take(ls.len() as int) =~= vs);
    r
}

/// Filtering keeps a sequence whole when every element passes.
proof fn lemma_filter_all(ls: Seq<Seq<char>>)
    requires
        forall|i: int| 0 <= i < ls.len() ==> trim(#[trigger] ls[i]).len() > 0,
    ensures
        ls.filter(|l: Seq<char>| trim(l).len() > 0) == ls,
    decreases ls.len(),
{
    reveal_with_fuel(Seq::filter, 1);
    if ls.len() > 0 {
        let init = ls.drop_last();
        assert forall|i: int| 0 <= i < init.len() implies trim(#[trigger] init[i]).len() > 0 by {
            assert(init[i] == ls[i]);
        }
        lemma_filter_all(init);
        assert(trim(ls[ls.len() - 1]).len() > 0);
        assert(init.push(ls.last()) =~= ls);
    }
}

/// Saving the editor's text unchanged gives back the directories it shows:
/// for directories that are non-empty, trimmed and free of line breaks, the
/// directories read from their text, one per line, are those directories.
pub proof fn lemma_desktop_paths_round_trip(paths: Seq<Seq<char>>)
    requires
        forall|i: int|
            0 <= i < paths.len() ==> (#[trigger] paths[i]).len() > 0 && trim(paths[i]) == paths[i]
                && !paths[i].contains('\n'),
    ensures
        desktop_paths(join(paths, "\n"@)) == paths,
{
    reveal_strlit("\n");
    assert("\n"@ =~= seq!['\n']);
    let text = join(paths, "\n"@);
    if paths.len() == 0 {
        assert(lines(text) =~= Seq::<Seq<char>>::empty());
        assert(desktop_paths(text) =~= paths);
    } else {
        let last = paths[paths.len() - 1];
        assert(paths.last() == last);
        lemma_trimmed_last(last);
        assert(text.len() > 0 && text.last() == last.last()) by {
            if paths.len() > 1 {
                assert(text =~= join(paths.drop_last(), "\n"@) + "\n"@ + last);
            }
        }
        assert(text.last() != '\n');
        lemma_split_char_join(paths, '\n');
        assert forall|i: int| 0 <= i < paths.len() implies strip_cr(#[trigger] paths[i]) == paths[i] by {
            lemma_trimmed_last(paths[i]);
        }
        assert(lines(text) =~= paths);
        assert forall|i: int| 0 <= i < paths.len() implies trim(#[trigger] paths[i]).len() > 0 by {}
        lemma_filter_all(paths);
        assert(paths.map_values(|l: Seq<char>| trim(l)) =~= paths);
    }
}

/// The accelerator prefix for the held modifier keys.
pub open spec fn modifier_prefix(shift: bool, control: bool, alt: bool, super_key: bool) -> Seq<
    char,
> {
    (if shift {
        "<Shift>"@
    } else {
        Seq::empty()
    }) + (if control {
        "<Control>"@
    } else {
        Seq::empty()
    }) + (if alt {
        "<Alt>"@
    } else {
        Seq::empty()
    }) + (if super_key {
        "<Super>"@
    } else {
        Seq::empty()
    })
}

/// The shortcut recorded for a key press: the held modifiers followed by
/// the lower-cased key name. `None` (the press is swallowed and nothing is
/// recorded) for a press of a modifier key itself or of a key without any
/// modifier.
pub fn shortcut_text(
    key_name: &str,
    is_modifier: bool,
    shift: bool,
    control: bool,
    alt: bool,
    super_key: bool,
) -> (r: Option<String>)
    ensures
        is_modifier || !(shift || control || alt || super_key) ==> r is None,
        !is_modifier && (shift || control || alt || super_key) ==> r is Some && r->0@
            == modifier_prefix(shift, control, alt, super_key) + lowercase(key_name@),
{
    let key = chars_of(to_lowercase(key_name).as_str());
    if is_modifier {
        return None;
    }
    let empty: Vec<char> = Vec::new();
    proof {
        reveal_strlit("<Shift>");
        reveal_strlit("<Control>");
        reveal_strlit("<Alt>");
        reveal_strlit("<Super>");
    }
    let p1 = if shift { chars_of("<Shift>") } else { Vec::new() };
    let p2 = if control { chars_of("<Control>") } else { Vec::new() };
    let p3 = if alt { chars_of("<Alt>") } else { Vec::new() };
    let p4 = if super_key { chars_of("<Super>") } else { Vec::new() };
    let prefix = concat_chars(&concat_chars(&concat_chars(&concat_chars(&empty, &p1), &p2), &p3), &p4);
    assert(prefix@ =~= modifier_prefix(shift, control, alt, super_key));
    if prefix.len() == 0 {
        return None;
    }
    Some(string_of(&concat_chars(&prefix, &key)))
}

} // verus!
