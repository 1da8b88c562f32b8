//! Turning a desktop entry's `Exec` value into a program and its arguments.
use vstd::prelude::*;

use crate::text::{chars_of, contains, lemma_find_is_first, occurs_at, string_of, views, words, words_exec};

verus! {

/// An argument is kept unless it holds a field code such as `%U` or `%F`.
pub open spec fn keeps_argument(arg: Seq<char>) -> bool {
    !contains(arg, seq!['%'])
}

/// Launches applications.
pub struct AppRunner;

impl AppRunner {
    /// The program and arguments that `exec` describes: its first word is
    /// the program, the other words are the arguments, with field codes
    /// (words holding `%`) left out. `None` when `exec` has no word.
    pub fn parse_command(exec: &str) -> (r: Option<(String, Vec<String>)>)
        ensures
            r is None <==> words(exec@).len() == 0,
            r matches Some((cmd, args)) ==> {
                &&& cmd@ == words(exec@)[0]
                &&& args@.map_values(|a: String| a@) == words(exec@).drop_first().filter(
                    |w: Seq<char>| keeps_argument(w),
                )
            },
    {
        let chars = chars_of(exec);
        let ws = words_exec(&chars);
        if ws.len() == 0 {
            return None;
        }
        let ghost vw = views(ws@);
        let ghost pred = |w: Seq<char>| keeps_argument(w);
        let cmd = string_of(&ws[0]);
        let mut args: Vec<String> = Vec::new();
        let mut i: usize = 1;
        assert(vw.drop_first().take(0) =~= Seq::<Seq<char>>::empty());
        assert(Seq::<Seq<char>>::empty().filter(pred) =~= Seq::<Seq<char>>::empty());
        assert(args@.map_values(|a: String| a@) =~= Seq::<Seq<char>>::empty());
        while i < ws.len()
            invariant
                vw == views(ws@),
                pred == (|w: Seq<char>| keeps_argument(w)),
                1 <= i <= ws.len(),
                args@.map_values(|a: String| a@) == vw.drop_first().take(i - 1).filter(pred),
            decreases ws.len() - i,
        {
            let percent = chars_of("%");
            proof {
                reveal_strlit("%");
                assert(percent@ =~= seq!['%']);
                assert(vw.drop_first().take(i as int) =~= vw.drop_first().take(i - 1).push(
                    ws@[i as int]@,
                ));
                vw.drop_first().take(i - 1).lemma_filter_push(ws@[i as int]@, pred);
            }
            let ghost before = args@.map_values(|a: String| a@);
            if crate::text::find_exec(&ws[i], &percent).is_none() {
                args.push(string_of(&ws[i]));
                assert(args@.map_values(|a: String| a@) =~= before.push(ws@[i as int]@));
            }
            i = i + 1;
        }
        assert(vw.drop_first().take(ws.len() - 1) =~= vw.drop_first());
        Some((cmd, args))
    }
}

/// A word is kept as an argument exactly when no character of it is `%`.
pub proof fn lemma_keeps_argument_iff_no_percent(arg: Seq<char>)
    ensures
        keeps_argument(arg) <==> !arg.contains('%'),
{
    lemma_find_is_first(arg, seq!['%']);
    if arg.contains('%') {
        let i: int = choose|i: int| 0 <= i < arg.len() && arg[i] == '%';
        assert(arg.subrange(i, i + 1) =~= seq!['%']);
        assert(occurs_at(arg, seq!['%'], i));
    }
    if contains(arg, seq!['%']) {
        let i: int = crate::text::find(arg, seq!['%'])->0;
        assert(arg.subrange(i, i + 1)[0] == arg[i]);
    }
}

/// The arguments of a command are its words after the first, in order,
/// except exactly those holding a `%`: every such word without `%` is
/// kept, and no kept word holds `%`.
pub proof fn lemma_arguments_are_plain_words(exec: Seq<char>)
    ensures
        words(exec).drop_first().filter(|w: Seq<char>| keeps_argument(w)) == words(
            exec,
        ).drop_first().filter(|w: Seq<char>| !w.contains('%')),
{
    let ws = words(exec).drop_first();
    assert forall|w: Seq<char>| keeps_argument(w) == !w.contains('%') by {
        lemma_keeps_argument_iff_no_percent(w);
    }
    let f = |w: Seq<char>| keeps_argument(w);
    let g = |w: Seq<char>| !w.contains('%');
    assert(f =~= g);
}

} // verus!
