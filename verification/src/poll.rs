//! The files that a polling watcher tracks, each with the modification time
//! it was last seen with, and what one poll of them decides: whether
//! anything changed, and which times to record.
use vstd::prelude::*;
use crate::text::{chars_equal, str_to_chars};

verus! {

/// What tracked entries hold: each path with its last seen modification
/// time.
pub open spec fn tracked_views(v: Seq<(String, u64)>) -> Seq<(Seq<char>, u64)> {
    v.map_values(|e: (String, u64)| (e.0@, e.1))
}

/// No path occurs twice.
pub open spec fn distinct_paths(es: Seq<(Seq<char>, u64)>) -> bool {
    forall|i: int, j: int| 0 <= i < j < es.len() ==> #[trigger] es[i].0 != #[trigger] es[j].0
}

/// The index of the first entry at or after `k` for `p`, or the length
/// when there is none.
pub open spec fn path_index_from(es: Seq<(Seq<char>, u64)>, p: Seq<char>, k: int) -> int
    decreases es.len() - k,
{
    if k < 0 || k >= es.len() {
        es.len() as int
    } else if es[k].0 == p {
        k
    } else {
        path_index_from(es, p, k + 1)
    }
}

/// The index of the entry for `p`, or the length when there is none.
pub open spec fn path_index(es: Seq<(Seq<char>, u64)>, p: Seq<char>) -> int {
    path_index_from(es, p, 0)
}

/// Whether some entry is for `p`.
pub open spec fn has_path(es: Seq<(Seq<char>, u64)>, p: Seq<char>) -> bool {
    exists|i: int| 0 <= i < es.len() && #[trigger] es[i].0 == p
}

/// The entries without the one for `p`.
pub open spec fn without_path(es: Seq<(Seq<char>, u64)>, p: Seq<char>) -> Seq<(Seq<char>, u64)> {
    if path_index(es, p) < es.len() {
        es.remove(path_index(es, p))
    } else {
        es
    }
}

/// The entries with `m` recorded for `p`: the entry for `p` is replaced,
/// or added at the end when there is none.
pub open spec fn with_mtime(es: Seq<(Seq<char>, u64)>, p: Seq<char>, m: u64) -> Seq<
    (Seq<char>, u64),
> {
    if path_index(es, p) < es.len() {
        es.update(path_index(es, p), (p, m))
    } else {
        es.push((p, m))
    }
}

/// The entries after recording each update, in order.
pub open spec fn apply_updates(es: Seq<(Seq<char>, u64)>, ups: Seq<(Seq<char>, u64)>) -> Seq<
    (Seq<char>, u64),
>
    decreases ups.len(),
{
    if ups.len() == 0 {
        es
    } else {
        with_mtime(apply_updates(es, ups.drop_last()), ups.last().0, ups.last().1)
    }
}

/// The times to record after a poll of the first `n` files, in file order:
/// each file whose stat gave a time other than the recorded one.
pub open spec fn poll_updates_upto(fs: Seq<(Seq<char>, u64)>, st: Seq<Option<u64>>, n: int) -> Seq<
    (Seq<char>, u64),
>
    decreases n,
{
    if n <= 0 {
        seq![]
    } else {
        let r = poll_updates_upto(fs, st, n - 1);
        match st[n - 1] {
            Some(m) => if m != fs[n - 1].1 {
                r.push((fs[n - 1].0, m))
            } else {
                r
            },
            None => r,
        }
    }
}

/// The times to record after a poll: `st[i]` is what the stat of file `i`
/// gave (`None` when it failed).
pub open spec fn poll_updates(fs: Seq<(Seq<char>, u64)>, st: Seq<Option<u64>>) -> Seq<
    (Seq<char>, u64),
> {
    poll_updates_upto(fs, st, fs.len() as int)
}

/// Whether a poll reports a change: some stat failed or gave a time other
/// than the recorded one.
pub open spec fn poll_changed(fs: Seq<(Seq<char>, u64)>, st: Seq<Option<u64>>) -> bool {
    exists|i: int| 0 <= i < fs.len() && #[trigger] st[i] != Some(fs[i].1)
}

pub proof fn lemma_path_index(es: Seq<(Seq<char>, u64)>, p: Seq<char>, k: int)
    requires
        0 <= k <= es.len(),
    ensures
        k <= path_index_from(es, p, k) <= es.len(),
        path_index_from(es, p, k) < es.len() ==> es[path_index_from(es, p, k)].0 == p,
        forall|j: int| k <= j < path_index_from(es, p, k) ==> #[trigger] es[j].0 != p,
    decreases es.len() - k,
{
    if k < es.len() && es[k].0 != p {
        lemma_path_index(es, p, k + 1);
    }
}

proof fn lemma_path_index_distinct(es: Seq<(Seq<char>, u64)>, k: int)
    requires
        distinct_paths(es),
        0 <= k < es.len(),
    ensures
        path_index(es, es[k].0) == k,
{
    lemma_path_index(es, es[k].0, 0);
    let i = path_index(es, es[k].0);
    if i < k {
        assert(es[i].0 != es[k].0);
    }
}

proof fn lemma_has_path(es: Seq<(Seq<char>, u64)>, p: Seq<char>)
    ensures
        has_path(es, p) == (path_index(es, p) < es.len()),
{
    lemma_path_index(es, p, 0);
}

/// The files a polling watcher tracks. No path is tracked twice.
pub struct TrackedFiles {
    entries: Vec<(String, u64)>,
}

impl View for TrackedFiles {
    type V = Seq<(Seq<char>, u64)>;

    closed spec fn view(&self) -> Seq<(Seq<char>, u64)> {
        tracked_views(self.entries@)
    }
}

impl TrackedFiles {
    #[verifier::type_invariant]
    closed spec fn inv(self) -> bool {
        distinct_paths(tracked_views(self.entries@))
    }

    /// Nothing tracked.
    pub fn new() -> (r: TrackedFiles)
        ensures
            r@ == Seq::<(Seq<char>, u64)>::empty(),
    {
        let r = TrackedFiles { entries: Vec::new() };
        assert(r@ =~= Seq::<(Seq<char>, u64)>::empty());
        r
    }

    fn find(&self, path: &str) -> (r: usize)
        ensures
            r == path_index(self@, path@),
    {
        let ghost es = self@;
        let pat = str_to_chars(path);
        let mut k: usize = 0;
        while k < self.entries.len()
            invariant
                pat@ == path@,
                es == self@,
                es == tracked_views(self.entries@),
                k <= self.entries.len(),
                path_index(es, path@) == path_index_from(es, path@, k as int),
            decreases self.entries.len() - k,
        {
            assert(es[k as int].0 == self.entries@[k as int].0@);
            if chars_equal(&str_to_chars(self.entries[k].0.as_str()), &pat) {
                return k;
            }
            k = k + 1;
        }
        k
    }

    /// Whether `path` is tracked.
    pub fn tracks(&self, path: &str) -> (r: bool)
        ensures
            r == has_path(self@, path@),
    {
        proof {
            lemma_has_path(self@, path@);
        }
        self.find(path) < self.entries.len()
    }

    /// Starts tracking `path` with modification time `mtime`; a path that
    /// is tracked already keeps its time.
    pub fn track(&mut self, path: String, mtime: u64)
        ensures
            final(self)@ == if has_path(old(self)@, path@) {
                old(self)@
            } else {
                old(self)@.push((path@, mtime))
            },
    {
        proof {
            use_type_invariant(&*self);
            lemma_has_path(self@, path@);
            lemma_path_index(self@, path@, 0);
        }
        if self.find(path.as_str()) < self.entries.len() {
            return;
        }
        let ghost before = self.entries@;
        let ghost p = path@;
        let mut es: Vec<(String, u64)> = Vec::new();
        std::mem::swap(&mut es, &mut self.entries);
        es.push((path, mtime));
        assert(tracked_views(es@) =~= tracked_views(before).push((p, mtime)));
        self.entries = es;
    }

    /// Stops tracking `path`.
    pub fn untrack(&mut self, path: &str)
        ensures
            final(self)@ == without_path(old(self)@, path@),
    {
        proof {
            use_type_invariant(&*self);
            lemma_path_index(self@, path@, 0);
        }
        let k = self.find(path);
        if k < self.entries.len() {
            let ghost before = self.entries@;
            let mut es: Vec<(String, u64)> = Vec::new();
            std::mem::swap(&mut es, &mut self.entries);
            let _gone = es.remove(k);
            assert(tracked_views(es@) =~= tracked_views(before).remove(k as int));
            self.entries = es;
        }
    }

    /// Whether nothing is tracked.
    pub fn is_empty(&self) -> (r: bool)
        ensures
            r == (self@.len() == 0),
    {
        self.entries.len() == 0
    }

    /// The tracked paths with their recorded times, in order.
    pub fn snapshot(&self) -> (r: Vec<(String, u64)>)
        ensures
            tracked_views(r@) == self@,
            distinct_paths(tracked_views(r@)),
    {
        proof {
            use_type_invariant(self);
        }
        let mut r: Vec<(String, u64)> = Vec::new();
        let mut k: usize = 0;
        while k < self.entries.len()
            invariant
                k <= self.entries.len(),
                tracked_views(r@) == tracked_views(self.entries@).take(k as int),
            decreases self.entries.len() - k,
        {
            let e = &self.entries[k];
            let ghost before = r@;
            r.push((e.0.clone(), e.1));
            assert(tracked_views(r@) =~= tracked_views(before).push((e.0@, e.1)));
            assert(tracked_views(self.entries@).take(k + 1) =~= tracked_views(self.entries@).take(
                k as int,
            ).push((e.0@, e.1)));
            k = k + 1;
        }
        assert(tracked_views(self.entries@).take(k as int) =~= tracked_views(self.entries@));
        r
    }

    /// Records `mtime` for `path`, tracking it if it was not.
    pub fn record(&mut self, path: String, mtime: u64)
        ensures
            final(self)@ == with_mtime(old(self)@, path@, mtime),
    {
        proof {
            use_type_invariant(&*self);
            lemma_path_index(self@, path@, 0);
        }
        let k = self.find(path.as_str());
        let ghost before = self.entries@;
        let ghost p = path@;
        let mut es: Vec<(String, u64)> = Vec::new();
        std::mem::swap(&mut es, &mut self.entries);
        if k < es.len() {
            es.set(k, (path, mtime));
            assert(tracked_views(es@) =~= tracked_views(before).update(k as int, (p, mtime)));
        } else {
            es.push((path, mtime));
            assert(tracked_views(es@) =~= tracked_views(before).push((p, mtime)));
        }
        self.entries = es;
    }

    /// Records every update, in order.
    pub fn apply(&mut self, updates: &Vec<(String, u64)>)
        ensures
            final(self)@ == apply_updates(old(self)@, tracked_views(updates@)),
    {
        let ghost start = self@;
        let ghost ups = tracked_views(updates@);
        let mut k: usize = 0;
        assert(ups.take(0) =~= Seq::<(Seq<char>, u64)>::empty());
        while k < updates.len()
            invariant
                ups == tracked_views(updates@),
                k <= updates.len(),
                self@ == apply_updates(start, ups.take(k as int)),
            decreases updates.len() - k,
        {
            let u = &updates[k];
            assert(ups[k as int] == (u.0@, u.1));
            assert(ups.take(k + 1).drop_last() =~= ups.take(k as int));
            assert(ups.take(k + 1).last() == ups[k as int]);
            self.record(u.0.clone(), u.1);
            k = k + 1;
        }
        assert(ups.take(updates.len() as int) =~= ups);
    }
}

/// What one poll decided: whether to announce a change, and which times to
/// record.
pub struct PollOutcome {
    pub changed: bool,
    pub updates: Vec<(String, u64)>,
}

/// Decides a poll: `stats[i]` is what the stat of `files[i]` gave (`None`
/// when it failed). A change is reported when some stat failed or gave a
/// time other than the recorded one; the new times are to be recorded.
pub fn poll_changes(files: &Vec<(String, u64)>, stats: &Vec<Option<u64>>) -> (r: PollOutcome)
    requires
        stats.len() == files.len(),
    ensures
        r.changed == poll_changed(tracked_views(files@), stats@),
        tracked_views(r.updates@) == poll_updates(tracked_views(files@), stats@),
{
    let ghost fs = tracked_views(files@);
    let mut changed = false;
    let mut updates: Vec<(String, u64)> = Vec::new();
    let mut k: usize = 0;
    while k < files.len()
        invariant
            fs == tracked_views(files@),
            stats.len() == files.len(),
            k <= files.len(),
            changed == exists|i: int| 0 <= i < k && #[trigger] stats@[i] != Some(fs[i].1),
            tracked_views(updates@) == poll_updates_upto(fs, stats@, k as int),
        decreases files.len() - k,
    {
        let e = &files[k];
        assert(fs[k as int] == (e.0@, e.1));
        match stats[k] {
            Some(m) => {
                if m != e.1 {
                    changed = true;
                    let ghost before = updates@;
                    updates.push((e.0.clone(), m));
                    assert(tracked_views(updates@) =~= tracked_views(before).push((e.0@, m)));
                }
            },
            None => {
                changed = true;
            },
        }
        k = k + 1;
    }
    PollOutcome { changed, updates }
}

/// The entries with the first `n` files' mtimes replaced by what their
/// stats gave, where a stat gave one.
pub open spec fn settled_upto(fs: Seq<(Seq<char>, u64)>, st: Seq<Option<u64>>, n: int) -> Seq<
    (Seq<char>, u64),
> {
    Seq::new(
        fs.len(),
        |i: int|
            if i < n && st[i] is Some {
                (fs[i].0, st[i]->0)
            } else {
                fs[i]
            },
    )
}

proof fn lemma_apply_poll_updates(fs: Seq<(Seq<char>, u64)>, st: Seq<Option<u64>>, n: int)
    requires
        distinct_paths(fs),
        st.len() == fs.len(),
        0 <= n <= fs.len(),
    ensures
        apply_updates(fs, poll_updates_upto(fs, st, n)) == settled_upto(fs, st, n),
    decreases n,
{
    if n == 0 {
        assert(settled_upto(fs, st, 0) =~= fs);
    } else {
        lemma_apply_poll_updates(fs, st, n - 1);
        let prev = settled_upto(fs, st, n - 1);
        let k = n - 1;
        assert(distinct_paths(prev)) by {
            assert forall|i: int, j: int| 0 <= i < j < prev.len() implies #[trigger] prev[i].0
                != #[trigger] prev[j].0 by {
                assert(prev[i].0 == fs[i].0);
                assert(prev[j].0 == fs[j].0);
            }
        }
        assert(prev[k].0 == fs[k].0);
        lemma_path_index_distinct(prev, k);
        match st[k] {
            Some(m) => {
                if m != fs[k].1 {
                    let ups = poll_updates_upto(fs, st, n);
                    assert(ups.drop_last() == poll_updates_upto(fs, st, n - 1));
                    assert(with_mtime(prev, fs[k].0, m) =~= settled_upto(fs, st, n));
                } else {
                    assert(prev =~= settled_upto(fs, st, n));
                }
            },
            None => {
                assert(prev =~= settled_upto(fs, st, n));
            },
        }
    }
}

/// Recording a poll's updates leaves each tracked file with the time its
/// stat gave, and with its recorded time where the stat failed; the files
/// tracked and their order stay as they were.
pub proof fn law_poll_records_stats(fs: Seq<(Seq<char>, u64)>, st: Seq<Option<u64>>)
    requires
        distinct_paths(fs),
        st.len() == fs.len(),
    ensures
        apply_updates(fs, poll_updates(fs, st)) == settled_upto(fs, st, fs.len() as int),
{
    lemma_apply_poll_updates(fs, st, fs.len() as int);
}

/// A poll settles the watcher: when every stat succeeded, recording the
/// poll's updates and polling again with the same stat results reports no
/// change.
pub proof fn law_poll_settles(fs: Seq<(Seq<char>, u64)>, st: Seq<Option<u64>>)
    requires
        distinct_paths(fs),
        st.len() == fs.len(),
        forall|i: int| 0 <= i < st.len() ==> #[trigger] st[i] is Some,
    ensures
        !poll_changed(apply_updates(fs, poll_updates(fs, st)), st),
{
    lemma_apply_poll_updates(fs, st, fs.len() as int);
    let after = apply_updates(fs, poll_updates(fs, st));
    assert forall|i: int| 0 <= i < after.len() implies #[trigger] st[i] == Some(after[i].1) by {
        assert(st[i] is Some);
    }
}

/// Tracking a path that was not tracked, then untracking it, leaves the
/// tracked files as they were.
pub proof fn law_track_then_untrack(es: Seq<(Seq<char>, u64)>, p: Seq<char>, m: u64)
    requires
        distinct_paths(es),
        !has_path(es, p),
    ensures
        without_path(es.push((p, m)), p) == es,
{
    let es2 = es.push((p, m));
    lemma_path_index(es2, p, 0);
    let i = path_index(es2, p);
    if i < es.len() {
        assert(es2[i] == es[i]);
        assert(es[i].0 == p);
        assert(has_path(es, p));
    }
    assert(es2[es.len() as int].0 == p);
    assert(i == es.len());
    assert(es2.remove(i) =~= es);
}

} // verus!
