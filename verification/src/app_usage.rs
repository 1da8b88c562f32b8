//! Launch counts per application, keyed by the `.desktop` file path.
use vstd::prelude::*;

use crate::model::AppEntry;

verus! {

/// What one launch adds to an application's score.
pub const SCORE_INCREMENT: u32 = 1;

/// The map that a list of `(key, value)` entries describes; a later entry
/// for the same key wins.
pub open spec fn entries_map(entries: Seq<(String, u32)>) -> Map<Seq<char>, u32>
    decreases entries.len(),
{
    if entries.len() == 0 {
        Map::empty()
    } else {
        entries_map(entries.drop_last()).insert(entries.last().0@, entries.last().1)
    }
}

/// The scores that a list of applications records: desktop file path to
/// score; for two applications with the same path the later one wins.
pub open spec fn scores_of(apps: Seq<AppEntry>) -> Map<Seq<char>, u32>
    decreases apps.len(),
{
    if apps.len() == 0 {
        Map::empty()
    } else {
        scores_of(apps.drop_last()).insert(apps.last().desktop_file@, apps.last().score)
    }
}

/// No key occurs twice among `entries`.
pub open spec fn keys_distinct(entries: Seq<(String, u32)>) -> bool {
    forall|i: int, j: int| 0 <= i < j < entries.len() ==> entries[i].0@ != entries[j].0@
}

/// `a + b`, or `u32::MAX` where the sum does not fit.
pub open spec fn saturating_add(a: u32, b: u32) -> u32 {
    if a + b > u32::MAX {
        u32::MAX
    } else {
        (a + b) as u32
    }
}

/// The usage record: how often each application was launched.
pub struct AppUsage {
    scores: Vec<(String, u32)>,
}

impl View for AppUsage {
    type V = Map<Seq<char>, u32>;

    closed spec fn view(&self) -> Map<Seq<char>, u32> {
        entries_map(self.scores@)
    }
}

/// In a list without repeated keys, the map holds each entry's value.
proof fn lemma_entries_map_index(entries: Seq<(String, u32)>, i: int)
    requires
        keys_distinct(entries),
        0 <= i < entries.len(),
    ensures
        entries_map(entries).contains_key(entries[i].0@),
        entries_map(entries)[entries[i].0@] == entries[i].1,
    decreases entries.len(),
{
    if i < entries.len() - 1 {
        lemma_entries_map_index(entries.drop_last(), i);
    }
}

/// The map's keys are exactly the entries' keys.
proof fn lemma_entries_map_keys(entries: Seq<(String, u32)>, k: Seq<char>)
    ensures
        entries_map(entries).contains_key(k) <==> exists|i: int|
            0 <= i < entries.len() && #[trigger] entries[i].0@ == k,
    decreases entries.len(),
{
    if entries.len() > 0 {
        lemma_entries_map_keys(entries.drop_last(), k);
        if entries_map(entries).contains_key(k) && k != entries.last().0@ {
            let i: int = choose|i: int|
                0 <= i < entries.drop_last().len() && #[trigger] entries.drop_last()[i].0@ == k;
            assert(entries[i].0@ == k);
        }
        if exists|i: int| 0 <= i < entries.len() && #[trigger] entries[i].0@ == k {
            let i: int = choose|i: int| 0 <= i < entries.len() && #[trigger] entries[i].0@ == k;
            if i < entries.len() - 1 {
                assert(entries.drop_last()[i].0@ == k);
            }
        }
    }
}

impl AppUsage {
    #[verifier::type_invariant]
    spec fn wf(self) -> bool {
        keys_distinct(self.scores@)
    }

    /// An empty record.
    pub fn new() -> (r: Self)
        ensures
            r@ == Map::<Seq<char>, u32>::empty(),
    {
        AppUsage { scores: Vec::new() }
    }

    /// Whether nothing is recorded.
    pub fn is_empty(&self) -> (r: bool)
        ensures
            r == (self@.dom() == Set::<Seq<char>>::empty()),
            self@.dom().finite(),
    {
        proof {
            use_type_invariant(self);
            lemma_entries_map_finite(self.scores@);
            if self.scores.len() > 0 {
                lemma_entries_map_index(self.scores@, 0);
                assert(self@.dom().contains(self.scores@[0].0@));
            } else {
                assert(self@.dom() =~= Set::empty());
            }
        }
        self.scores.len() == 0
    }

    /// The score recorded for `desktop_file`.
    pub fn get(&self, desktop_file: &str) -> (r: Option<u32>)
        ensures
            r == if self@.contains_key(desktop_file@) {
                Some(self@[desktop_file@])
            } else {
                None::<u32>
            },
    {
        proof {
            use_type_invariant(self);
        }
        let key = desktop_file.to_owned();
        let mut i: usize = 0;
        while i < self.scores.len()
            invariant
                keys_distinct(self.scores@),
                key@ == desktop_file@,
                i <= self.scores.len(),
                forall|j: int| 0 <= j < i ==> self.scores@[j].0@ != desktop_file@,
            decreases self.scores.len() - i,
        {
            if self.scores[i].0 == key {
                proof {
                    lemma_entries_map_index(self.scores@, i as int);
                }
                return Some(self.scores[i].1);
            }
            i = i + 1;
        }
        proof {
            lemma_entries_map_keys(self.scores@, desktop_file@);
        }
        None
    }

    /// Records `score` for `desktop_file`, replacing any earlier score.
    pub fn insert(&mut self, desktop_file: String, score: u32)
        ensures
            final(self)@ == old(self)@.insert(desktop_file@, score),
    {
        proof {
            use_type_invariant(&*self);
        }
        let mut i: usize = 0;
        while i < self.scores.len()
            invariant
                self.scores@ == old(self).scores@,
                keys_distinct(self.scores@),
                i <= self.scores.len(),
                forall|j: int| 0 <= j < i ==> self.scores@[j].0@ != desktop_file@,
            decreases self.scores.len() - i,
        {
            if self.scores[i].0 == desktop_file {
                let ghost before = self.scores@;
                let mut entries: Vec<(String, u32)> = Vec::new();
                std::mem::swap(&mut entries, &mut self.scores);
                entries.set(i, (desktop_file, score));
                proof {
                    assert(entries@ == before.update(i as int, entries@[i as int]));
                    assert(keys_distinct(entries@));
                    lemma_entries_map_replace(before, i as int, entries@[i as int]);
                    assert(entries_map(entries@) == entries_map(before).insert(desktop_file@, score));
                }
                self.scores = entries;
                assert(self@ == entries_map(before).insert(desktop_file@, score));
                return;
            }
            i = i + 1;
        }
        let ghost before = self.scores@;
        let mut entries: Vec<(String, u32)> = Vec::new();
                std::mem::swap(&mut entries, &mut self.scores);
        entries.push((desktop_file, score));
        proof {
            assert(entries@.drop_last() =~= before);
            assert(entries_map(entries@) == entries_map(before).insert(desktop_file@, score));
        }
        self.scores = entries;
        assert(self@ == entries_map(before).insert(desktop_file@, score));
    }

    /// Forgets every score.
    pub fn clear(&mut self)
        ensures
            final(self)@ == Map::<Seq<char>, u32>::empty(),
    {
        self.scores = Vec::new();
    }

    /// Every `(desktop file, score)` pair, each key once.
    pub fn entries(&self) -> (r: Vec<(String, u32)>)
        ensures
            keys_distinct(r@),
            entries_map(r@) == self@,
    {
        proof {
            use_type_invariant(self);
        }
        let mut r: Vec<(String, u32)> = Vec::new();
        let mut i: usize = 0;
        while i < self.scores.len()
            invariant
                i <= self.scores.len(),
                r@.len() == i,
                forall|j: int|
                    0 <= j < i ==> (#[trigger] r@[j]).0@ == self.scores@[j].0@ && r@[j].1
                        == self.scores@[j].1,
            decreases self.scores.len() - i,
        {
            let key = self.scores[i].0.clone();
            r.push((key, self.scores[i].1));
            i = i + 1;
        }
        proof {
            lemma_entries_map_same_keys(r@, self.scores@);
        }
        r
    }

    /// Replaces the scores by those of `apps`: desktop file path to score.
    pub fn update_scores_from_apps(&mut self, apps: &Vec<AppEntry>)
        ensures
            final(self)@ == scores_of(apps@),
    {
        self.clear();
        let mut i: usize = 0;
        assert(apps@.take(0) =~= Seq::<AppEntry>::empty());
        while i < apps.len()
            invariant
                i <= apps.len(),
                self@ == scores_of(apps@.take(i as int)),
            decreases apps.len() - i,
        {
            self.insert(apps[i].desktop_file.clone(), apps[i].score);
            assert(apps@.take(i + 1).drop_last() =~= apps@.take(i as int));
            i = i + 1;
        }
        assert(apps@.take(apps.len() as int) =~= apps@);
    }

    /// Counts one launch of `apps[index]`: its score grows by
    /// [`SCORE_INCREMENT`] (saturating), and the record then holds the
    /// scores of all `apps`.
    pub fn record_launch(&mut self, apps: &mut Vec<AppEntry>, index: usize)
        requires
            index < old(apps).len(),
        ensures
            final(apps)@.len() == old(apps)@.len(),
            final(apps)@[index as int].score == saturating_add(
                old(apps)@[index as int].score,
                SCORE_INCREMENT,
            ),
            final(apps)@[index as int].desktop_file@ == old(apps)@[index as int].desktop_file@,
            final(apps)@[index as int].name@ == old(apps)@[index as int].name@,
            final(apps)@[index as int].exec_cmd@ == old(apps)@[index as int].exec_cmd@,
            final(apps)@[index as int].search_key@ == old(apps)@[index as int].search_key@,
            final(apps)@[index as int].comment@ == old(apps)@[index as int].comment@,
            final(apps)@[index as int].icon == old(apps)@[index as int].icon,
            forall|k: int|
                0 <= k < old(apps)@.len() && k != index ==> #[trigger] final(apps)@[k] == old(
                    apps,
                )@[k],
            final(self)@ == scores_of(final(apps)@),
    {
        let current: u32 = apps[index].score;
        let next: u32 = current.saturating_add(SCORE_INCREMENT);
        let mut app = apps.remove(index);
        app.score = next;
        apps.insert(index, app);
        self.update_scores_from_apps(apps);
    }
}

/// Entry lists with the same keys and values (position by position) give
/// the same map.
proof fn lemma_entries_map_same_keys(a: Seq<(String, u32)>, b: Seq<(String, u32)>)
    requires
        a.len() == b.len(),
        forall|j: int| 0 <= j < a.len() ==> (#[trigger] a[j]).0@ == b[j].0@ && a[j].1 == b[j].1,
    ensures
        entries_map(a) == entries_map(b),
    decreases a.len(),
{
    if a.len() > 0 {
        lemma_entries_map_same_keys(a.drop_last(), b.drop_last());
    }
}

/// Replacing the entry at `i` by one with the same key replaces its value.
proof fn lemma_entries_map_replace(entries: Seq<(String, u32)>, i: int, e: (String, u32))
    requires
        keys_distinct(entries),
        0 <= i < entries.len(),
        e.0@ == entries[i].0@,
    ensures
        entries_map(entries.update(i, e)) == entries_map(entries).insert(e.0@, e.1),
    decreases entries.len(),
{
    let u = entries.update(i, e);
    if i == entries.len() - 1 {
        assert(u.drop_last() =~= entries.drop_last());
        assert(entries_map(entries).insert(e.0@, e.1) =~= entries_map(entries.drop_last()).insert(
            e.0@,
            e.1,
        ));
    } else {
        lemma_entries_map_replace(entries.drop_last(), i, e);
        assert(u.drop_last() =~= entries.drop_last().update(i, e));
        assert(entries.last().0@ != e.0@);
        assert(entries_map(u) =~= entries_map(entries).insert(e.0@, e.1));
    }
}

/// The map of a list of entries has a finite domain.
proof fn lemma_entries_map_finite(entries: Seq<(String, u32)>)
    ensures
        entries_map(entries).dom().finite(),
    decreases entries.len(),
{
    if entries.len() > 0 {
        lemma_entries_map_finite(entries.drop_last());
    }
}

/// What the record holds after recording `apps`: the score of every
/// application whose desktop file no later application shares.
pub proof fn lemma_recorded_score(apps: Seq<AppEntry>, k: int)
    requires
        0 <= k < apps.len(),
        forall|j: int| k < j < apps.len() ==> apps[j].desktop_file@ != apps[k].desktop_file@,
    ensures
        scores_of(apps).contains_key(apps[k].desktop_file@),
        scores_of(apps)[apps[k].desktop_file@] == apps[k].score,
    decreases apps.len(),
{
    if k < apps.len() - 1 {
        lemma_recorded_score(apps.drop_last(), k);
    }
}

/// The record of `apps` holds exactly their desktop files.
pub proof fn lemma_recorded_files(apps: Seq<AppEntry>, f: Seq<char>)
    ensures
        scores_of(apps).contains_key(f) <==> exists|j: int|
            0 <= j < apps.len() && #[trigger] apps[j].desktop_file@ == f,
    decreases apps.len(),
{
    if apps.len() > 0 {
        lemma_recorded_files(apps.drop_last(), f);
        if scores_of(apps).contains_key(f) && f != apps.last().desktop_file@ {
            let j: int = choose|j: int|
                0 <= j < apps.drop_last().len() && #[trigger] apps.drop_last()[j].desktop_file@ == f;
            assert(apps[j].desktop_file@ == f);
        }
        if exists|j: int| 0 <= j < apps.len() && #[trigger] apps[j].desktop_file@ == f {
            let j: int = choose|j: int| 0 <= j < apps.len() && #[trigger] apps[j].desktop_file@ == f;
            if j < apps.len() - 1 {
                assert(apps.drop_last()[j].desktop_file@ == f);
            }
        }
    }
}

} // verus!
