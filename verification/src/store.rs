//! The tracking engine: an in-memory set of tracked paths with their
//! first-seen instants, and the operations the command surface needs.

use vstd::prelude::*;

use vstd::string::StringExecFns;

use crate::stamp::Span;
use crate::stamp::Stamp;
use crate::stamp::fmt_duration;
use crate::stamp::span_between;
use crate::stamp::spec_fmt_duration;
use crate::stamp::elapsed;
use crate::text::dec_rep;
use crate::text::push_char;
use crate::text::push_u64;
use crate::text::str_eq;

verus! {

/// One tracked path (canonical, absolute) with its first-seen instant.
pub struct Entry {
    pub path: String,
    pub first_seen: Stamp,
}

impl View for Entry {
    type V = (Seq<char>, Stamp);

    open spec fn view(&self) -> (Seq<char>, Stamp) {
        (self.path@, self.first_seen)
    }
}

impl Entry {
    /// A structural copy of the entry.
    pub fn duplicate(&self) -> (r: Entry)
        ensures
            r@ == self@,
    {
        Entry { path: self.path.clone(), first_seen: self.first_seen }
    }
}

/// The mathematical content of a database: the tracked paths in insertion
/// order, each with its first-seen instant.
pub open spec fn unique_paths(m: Seq<(Seq<char>, Stamp)>) -> bool {
    forall|i: int, j: int|
        0 <= i < m.len() && 0 <= j < m.len() && i != j ==> (#[trigger] m[i]).0 != (
        #[trigger] m[j]).0
}

/// A well-formed model: no path occurs twice, every instant is normalized.
pub open spec fn wf_model(m: Seq<(Seq<char>, Stamp)>) -> bool {
    unique_paths(m) && forall|i: int| 0 <= i < m.len() ==> (#[trigger] m[i]).1.wf()
}

/// Whether some entry of `m` carries the path `p`.
pub open spec fn has_path(m: Seq<(Seq<char>, Stamp)>, p: Seq<char>) -> bool {
    exists|i: int| 0 <= i < m.len() && (#[trigger] m[i]).0 == p
}

/// The index of the entry carrying `p` (meaningful when `has_path` holds).
pub open spec fn idx_of(m: Seq<(Seq<char>, Stamp)>, p: Seq<char>) -> int {
    choose|i: int| 0 <= i < m.len() && (#[trigger] m[i]).0 == p
}

/// The first-seen instant recorded for `p` (meaningful when `has_path` holds).
pub open spec fn first_seen_of(m: Seq<(Seq<char>, Stamp)>, p: Seq<char>) -> Stamp {
    m[idx_of(m, p)].1
}

/// Registration: insert-if-missing; re-tracking an already-tracked path is
/// a no-op that keeps the original first-seen instant.
pub open spec fn spec_track(m: Seq<(Seq<char>, Stamp)>, p: Seq<char>, t: Stamp) -> Seq<
    (Seq<char>, Stamp),
> {
    if has_path(m, p) {
        m
    } else {
        m.push((p, t))
    }
}

/// Unregistration: remove-if-present; removing an absent path is a no-op.
pub open spec fn spec_untrack(m: Seq<(Seq<char>, Stamp)>, p: Seq<char>) -> Seq<
    (Seq<char>, Stamp),
> {
    if has_path(m, p) {
        m.remove(idx_of(m, p))
    } else {
        m
    }
}

/// The persisted set of tracked paths, keyed by canonical path.
pub struct Database {
    pub data: Vec<Entry>,
}

impl View for Database {
    type V = Seq<(Seq<char>, Stamp)>;

    open spec fn view(&self) -> Seq<(Seq<char>, Stamp)> {
        self.data@.map_values(|e: Entry| e@)
    }
}

impl Database {
    /// Every operation keeps the database well formed.
    pub open spec fn wf(self) -> bool {
        wf_model(self@)
    }

    /// An empty database, as `open` yields it when no store file exists.
    pub fn new() -> (r: Database)
        ensures
            r@ == Seq::<(Seq<char>, Stamp)>::empty(),
            r.wf(),
    {
        let r = Database { data: Vec::new() };
        proof {
            assert(r@ =~= Seq::<(Seq<char>, Stamp)>::empty());
        }
        r
    }

    /// The number of tracked paths.
    pub fn len(&self) -> (n: usize)
        ensures
            n == self@.len(),
    {
        self.data.len()
    }

    /// The index of the entry for `path`, if one exists.
    fn find_idx(&self, path: &str) -> (r: Option<usize>)
        ensures
            match r {
                Some(i) => i < self@.len() && self@[i as int].0 == path@,
                None => !has_path(self@, path@),
            },
    {
        let mut i: usize = 0;
        while i < self.data.len()
            invariant
                i <= self.data.len(),
                self@.len() == self.data@.len(),
                forall|k: int| 0 <= k < i ==> (#[trigger] self@[k]).0 != path@,
            decreases self.data.len() - i,
        {
            if str_eq(self.data[i].path.as_str(), path) {
                assert(self@[i as int].0 == path@);
                return Some(i);
            }
            i = i + 1;
        }
        None
    }

    /// The first-seen instant recorded for `path`, if it is tracked.
    pub fn get(&self, path: &str) -> (r: Option<Stamp>)
        requires
            self.wf(),
        ensures
            match r {
                Some(t) => has_path(self@, path@) && t == first_seen_of(self@, path@),
                None => !has_path(self@, path@),
            },
    {
        match self.find_idx(path) {
            Some(i) => {
                proof {
                    assert(has_path(self@, path@));
                    let j = idx_of(self@, path@);
                    assert(0 <= j < self@.len() && self@[j].0 == path@);
                    assert(j == i);
                }
                Some(self.data[i].first_seen)
            },
            None => None,
        }
    }

    /// Registers one canonical path: inserts it with `now` only if absent.
    pub fn track_one(&mut self, path: String, now: Stamp)
        requires
            old(self).wf(),
            now.wf(),
        ensures
            final(self).wf(),
            final(self)@ == spec_track(old(self)@, path@, now),
    {
        match self.find_idx(path.as_str()) {
            Some(_) => {
                proof {
                    assert(has_path(self@, path@));
                }
            },
            None => {
                let ghost m = self@;
                self.data.push(Entry { path, first_seen: now });
                proof {
                    assert(final(self)@ =~= m.push((path@, now)));
                    let m2 = m.push((path@, now));
                    assert(forall|i: int| 0 <= i < m.len() ==> (#[trigger] m2[i]) == m[i]);
                    assert(forall|i: int|
                        0 <= i < m.len() ==> (#[trigger] m2[i]).0 != path@) by {
                        assert(forall|i: int|
                            0 <= i < m.len() ==> (#[trigger] m2[i]).0 == m[i].0);
                    }
                    assert(wf_model(m2));
                }
            },
        }
    }

    /// Unregisters one canonical path: removes its entry if present.
    pub fn untrack_one(&mut self, path: &str)
        requires
            old(self).wf(),
        ensures
            final(self).wf(),
            final(self)@ == spec_untrack(old(self)@, path@),
    {
        match self.find_idx(path) {
            Some(i) => {
                let ghost m = self@;
                proof {
                    assert(has_path(m, path@));
                    let j = idx_of(m, path@);
                    assert(0 <= j < m.len() && m[j].0 == path@);
                    assert(j == i);
                }
                self.data.remove(i);
                proof {
                    assert(final(self)@ =~= m.remove(i as int));
                    let m2 = m.remove(i as int);
                    assert(forall|k: int|
                        0 <= k < m2.len() ==> (#[trigger] m2[k]) == (if k < i {
                            m[k]
                        } else {
                            m[k + 1]
                        }));
                    assert(wf_model(m2));
                }
            },
            None => {},
        }
    }

    /// Discards every entry unconditionally.
    pub fn untrack_all(&mut self)
        ensures
            final(self).wf(),
            final(self)@ == Seq::<(Seq<char>, Stamp)>::empty(),
    {
        self.data = Vec::new();
        proof {
            assert(final(self)@ =~= Seq::<(Seq<char>, Stamp)>::empty());
        }
    }

    /// Registers a batch of resolution outcomes: every resolved path is
    /// inserted if absent, every unresolved raw path is returned as ignored.
    pub fn track_batch(&mut self, inputs: Vec<PathInput>, now: Stamp) -> (ignored: Vec<String>)
        requires
            old(self).wf(),
            now.wf(),
        ensures
            final(self).wf(),
            final(self)@ == spec_track_all(old(self)@, inputs@.map_values(|p: PathInput| p@), now),
            ignored@.map_values(|s: String| s@) == spec_ignored(
                inputs@.map_values(|p: PathInput| p@),
            ),
    {
        let ghost ins = inputs@.map_values(|p: PathInput| p@);
        let ghost m0 = self@;
        let mut ignored: Vec<String> = Vec::new();
        let n = inputs.len();
        let mut inputs = inputs;
        let mut i: usize = 0;
        proof {
            assert(ins.subrange(0, ins.len() as int) =~= ins);
        }
        while i < n
            invariant
                i <= n,
                now.wf(),
                n == ins.len(),
                inputs@.map_values(|p: PathInput| p@) == ins.subrange(i as int, ins.len() as int),
                self.wf(),
                spec_track_all(m0, ins, now) == spec_track_all(
                    self@,
                    ins.subrange(i as int, ins.len() as int),
                    now,
                ),
                spec_ignored(ins) == ignored@.map_values(|s: String| s@) + spec_ignored(
                    ins.subrange(i as int, ins.len() as int),
                ),
            decreases n - i,
        {
            let ghost suf = ins.subrange(i as int, ins.len() as int);
            proof {
                assert(suf.len() > 0);
                assert(suf[0] == ins[i as int]);
                assert(suf.drop_first() =~= ins.subrange(i + 1 as int, ins.len() as int));
            }
            let ghost igpre = ignored@.map_values(|s: String| s@);
            let input = inputs.remove(0);
            proof {
                assert(inputs@.map_values(|p: PathInput| p@) =~= ins.subrange(
                    i + 1 as int,
                    ins.len() as int,
                ));
                assert(input@ == ins[i as int]);
            }
            match input.canonical {
                Some(c) => {
                    self.track_one(c, now);
                    proof {
                        assert(spec_ignored(suf) == spec_ignored(suf.drop_first()));
                    }
                },
                None => {
                    ignored.push(input.raw);
                    proof {
                        assert(ignored@.map_values(|s: String| s@) =~= igpre + seq![
                            ins[i as int].0,
                        ]);
                        assert(spec_ignored(suf) == seq![ins[i as int].0] + spec_ignored(
                            suf.drop_first(),
                        ));
                        assert(igpre + (seq![ins[i as int].0] + spec_ignored(suf.drop_first()))
                            =~= (igpre + seq![ins[i as int].0]) + spec_ignored(suf.drop_first()));
                    }
                },
            }
            i = i + 1;
        }
        proof {
            assert(ins.subrange(i as int, ins.len() as int) =~= Seq::<
                (Seq<char>, Option<Seq<char>>),
            >::empty());
            assert(spec_track_all(self@, Seq::empty(), now) == self@);
            assert(spec_ignored(Seq::empty()) == Seq::<Seq<char>>::empty());
            assert(ignored@.map_values(|s: String| s@) + Seq::<Seq<char>>::empty() =~= ignored@
                .map_values(|s: String| s@));
        }
        ignored
    }

    /// Unregisters a batch of resolution outcomes: every resolved path is
    /// removed if present, every unresolved raw path is returned as ignored.
    pub fn untrack_batch(&mut self, inputs: Vec<PathInput>) -> (ignored: Vec<String>)
        requires
            old(self).wf(),
        ensures
            final(self).wf(),
            final(self)@ == spec_untrack_all(old(self)@, inputs@.map_values(|p: PathInput| p@)),
            ignored@.map_values(|s: String| s@) == spec_ignored(
                inputs@.map_values(|p: PathInput| p@),
            ),
    {
        let ghost ins = inputs@.map_values(|p: PathInput| p@);
        let ghost m0 = self@;
        let mut ignored: Vec<String> = Vec::new();
        let n = inputs.len();
        let mut inputs = inputs;
        let mut i: usize = 0;
        proof {
            assert(ins.subrange(0, ins.len() as int) =~= ins);
        }
        while i < n
            invariant
                i <= n,
                n == ins.len(),
                inputs@.map_values(|p: PathInput| p@) == ins.subrange(i as int, ins.len() as int),
                self.wf(),
                spec_untrack_all(m0, ins) == spec_untrack_all(
                    self@,
                    ins.subrange(i as int, ins.len() as int),
                ),
                spec_ignored(ins) == ignored@.map_values(|s: String| s@) + spec_ignored(
                    ins.subrange(i as int, ins.len() as int),
                ),
            decreases n - i,
        {
            let ghost suf = ins.subrange(i as int, ins.len() as int);
            proof {
                assert(suf.len() > 0);
                assert(suf[0] == ins[i as int]);
                assert(suf.drop_first() =~= ins.subrange(i + 1 as int, ins.len() as int));
            }
            let ghost igpre = ignored@.map_values(|s: String| s@);
            let input = inputs.remove(0);
            proof {
                assert(inputs@.map_values(|p: PathInput| p@) =~= ins.subrange(
                    i + 1 as int,
                    ins.len() as int,
                ));
                assert(input@ == ins[i as int]);
            }
            match input.canonical {
                Some(c) => {
                    self.untrack_one(c.as_str());
                    proof {
                        assert(spec_ignored(suf) == spec_ignored(suf.drop_first()));
                    }
                },
                None => {
                    ignored.push(input.raw);
                    proof {
                        assert(ignored@.map_values(|s: String| s@) =~= igpre + seq![
                            ins[i as int].0,
                        ]);
                        assert(spec_ignored(suf) == seq![ins[i as int].0] + spec_ignored(
                            suf.drop_first(),
                        ));
                        assert(igpre + (seq![ins[i as int].0] + spec_ignored(suf.drop_first()))
                            =~= (igpre + seq![ins[i as int].0]) + spec_ignored(suf.drop_first()));
                    }
                },
            }
            i = i + 1;
        }
        proof {
            assert(ins.subrange(i as int, ins.len() as int) =~= Seq::<
                (Seq<char>, Option<Seq<char>>),
            >::empty());
            assert(spec_untrack_all(self@, Seq::empty()) == self@);
            assert(spec_ignored(Seq::empty()) == Seq::<Seq<char>>::empty());
            assert(ignored@.map_values(|s: String| s@) + Seq::<Seq<char>>::empty() =~= ignored@
                .map_values(|s: String| s@));
        }
        ignored
    }

    /// Keeps exactly the entries whose flag in `keep` is set: the pruning
    /// step of `open`, with the filesystem's existence answers handed in.
    pub fn retain_existing(&mut self, keep: &Vec<bool>)
        requires
            old(self).wf(),
            keep@.len() == old(self)@.len(),
        ensures
            final(self).wf(),
            final(self)@ == mask_filter(old(self)@, keep@),
    {
        let ghost m = self@;
        let mut kept: Vec<Entry> = Vec::new();
        let mut i: usize = 0;
        while i < self.data.len()
            invariant
                i <= self.data.len(),
                self@ == m,
                keep@.len() == m.len(),
                self@.len() == self.data@.len(),
                kept@.map_values(|e: Entry| e@) == mask_filter(
                    m.subrange(0, i as int),
                    keep@.subrange(0, i as int),
                ),
            decreases self.data.len() - i,
        {
            let ghost pre = kept@.map_values(|e: Entry| e@);
            if keep[i] {
                let e = self.data[i].duplicate();
                kept.push(e);
                proof {
                    assert(kept@.map_values(|e: Entry| e@) =~= pre.push(m[i as int]));
                }
            }
            proof {
                lemma_mask_filter_push(
                    m.subrange(0, i as int),
                    keep@.subrange(0, i as int),
                    m[i as int],
                    keep@[i as int],
                );
                assert(m.subrange(0, i as int).push(m[i as int]) =~= m.subrange(0, i + 1 as int));
                assert(keep@.subrange(0, i as int).push(keep@[i as int]) =~= keep@.subrange(
                    0,
                    i + 1 as int,
                ));
                if keep@[i as int] {
                    assert(pre + seq![m[i as int]] =~= pre.push(m[i as int]));
                } else {
                    assert(pre + Seq::<(Seq<char>, Stamp)>::empty() =~= pre);
                }
            }
            i = i + 1;
        }
        proof {
            assert(m.subrange(0, i as int) =~= m);
            assert(keep@.subrange(0, i as int) =~= keep@);
        }
        self.data = kept;
        proof {
            lemma_mask_filter_wf(m, keep@);
        }
    }

    /// The full listing's display text.
    pub fn render(&self) -> (r: String)
        ensures
            r@ == spec_render_list(self@),
    {
        let mut out = String::new();
        proof {
            assert(self.data@.map_values(|e: Entry| e@).subrange(0, self.data@.len() as int)
                =~= self@);
        }
        render_list_from(&self.data, 0, &mut out);
        proof {
            assert(Seq::<char>::empty() + spec_render_list(self@) =~= spec_render_list(self@));
        }
        out
    }

    /// The tracked paths, in order.
    pub fn paths(&self) -> (r: Vec<String>)
        ensures
            r@.map_values(|s: String| s@) == self@.map_values(|e: (Seq<char>, Stamp)| e.0),
    {
        let mut r: Vec<String> = Vec::new();
        let mut i: usize = 0;
        while i < self.data.len()
            invariant
                i <= self.data.len(),
                self@.len() == self.data@.len(),
                r@.map_values(|s: String| s@) == self@.map_values(
                    |e: (Seq<char>, Stamp)| e.0,
                ).subrange(0, i as int),
            decreases self.data.len() - i,
        {
            let ghost pre = r@.map_values(|s: String| s@);
            r.push(self.data[i].path.clone());
            proof {
                assert(r@.map_values(|s: String| s@) =~= pre.push(self@[i as int].0));
                assert(pre.push(self@[i as int].0) =~= self@.map_values(
                    |e: (Seq<char>, Stamp)| e.0,
                ).subrange(0, i + 1 as int));
            }
            i = i + 1;
        }
        proof {
            assert(self@.map_values(|e: (Seq<char>, Stamp)| e.0).subrange(0, i as int) =~= self@
                .map_values(|e: (Seq<char>, Stamp)| e.0));
        }
        r
    }

    /// Every entry whose elapsed time since first-seen reaches `threshold`,
    /// with that elapsed time; entries first seen after `now` are excluded.
    pub fn get_stale_files(&self, now: Stamp, threshold: Span) -> (r: StaleFiles)
        requires
            self.wf(),
            now.wf(),
        ensures
            r@ == spec_stale(self@, now, threshold),
    {
        let ghost m = self@;
        let mut out: Vec<StaleEntry> = Vec::new();
        let mut i: usize = 0;
        while i < self.data.len()
            invariant
                i <= self.data.len(),
                self@ == m,
                wf_model(m),
                now.wf(),
                self@.len() == self.data@.len(),
                out@.map_values(|e: StaleEntry| e@) == spec_stale(
                    m.subrange(0, i as int),
                    now,
                    threshold,
                ),
            decreases self.data.len() - i,
        {
            let ghost pre = out@.map_values(|e: StaleEntry| e@);
            let first_seen = self.data[i].first_seen;
            assert(first_seen == m[i as int].1);
            if first_seen.le(&now) {
                let since = elapsed(&first_seen, &now);
                if since.ge(&threshold) {
                    let path = self.data[i].path.clone();
                    out.push(StaleEntry { path, elapsed: since });
                    proof {
                        assert(out@.map_values(|e: StaleEntry| e@) =~= pre.push(
                            (m[i as int].0, span_between(m[i as int].1, now)),
                        ));
                    }
                }
            }
            proof {
                lemma_spec_stale_push(
                    m.subrange(0, i as int),
                    m[i as int],
                    now,
                    threshold,
                );
                assert(m.subrange(0, i as int).push(m[i as int]) =~= m.subrange(0, i + 1 as int));
                if stale_entry(m[i as int], now, threshold) {
                    assert(pre + seq![(m[i as int].0, span_between(m[i as int].1, now))] =~= pre
                        .push((m[i as int].0, span_between(m[i as int].1, now))));
                } else {
                    assert(pre + Seq::<(Seq<char>, Span)>::empty() =~= pre);
                }
            }
            i = i + 1;
        }
        proof {
            assert(m.subrange(0, i as int) =~= m);
        }
        StaleFiles { data: out }
    }
}

/// One raw command-line path together with the outcome of resolving it
/// against the live filesystem: its canonical form, or nothing if
/// resolution failed.
pub struct PathInput {
    pub raw: String,
    pub canonical: Option<String>,
}

impl View for PathInput {
    type V = (Seq<char>, Option<Seq<char>>);

    open spec fn view(&self) -> (Seq<char>, Option<Seq<char>>) {
        (
            self.raw@,
            match self.canonical {
                Some(ref c) => Some(c@),
                None => None,
            },
        )
    }
}

impl PathInput {
    /// A raw path that resolved to canonical form `c`.
    pub fn resolved(raw: String, c: String) -> (r: PathInput)
        ensures
            r@ == (raw@, Some(c@)),
    {
        PathInput { raw, canonical: Some(c) }
    }

    /// A raw path that failed to resolve.
    pub fn unresolved(raw: String) -> (r: PathInput)
        ensures
            r@ == (raw@, None::<Seq<char>>),
    {
        PathInput { raw, canonical: None }
    }
}

/// Folds registration over a batch of resolution outcomes, in order.
pub open spec fn spec_track_all(
    m: Seq<(Seq<char>, Stamp)>,
    ins: Seq<(Seq<char>, Option<Seq<char>>)>,
    t: Stamp,
) -> Seq<(Seq<char>, Stamp)>
    decreases ins.len(),
{
    if ins.len() == 0 {
        m
    } else {
        let m1 = match ins[0].1 {
            Some(c) => spec_track(m, c, t),
            None => m,
        };
        spec_track_all(m1, ins.drop_first(), t)
    }
}

/// Folds unregistration over a batch of resolution outcomes, in order.
pub open spec fn spec_untrack_all(
    m: Seq<(Seq<char>, Stamp)>,
    ins: Seq<(Seq<char>, Option<Seq<char>>)>,
) -> Seq<(Seq<char>, Stamp)>
    decreases ins.len(),
{
    if ins.len() == 0 {
        m
    } else {
        let m1 = match ins[0].1 {
            Some(c) => spec_untrack(m, c),
            None => m,
        };
        spec_untrack_all(m1, ins.drop_first())
    }
}

/// The raw paths of a batch that failed to resolve, in order.
pub open spec fn spec_ignored(ins: Seq<(Seq<char>, Option<Seq<char>>)>) -> Seq<Seq<char>>
    decreases ins.len(),
{
    if ins.len() == 0 {
        Seq::empty()
    } else {
        (if ins[0].1 is None {
            seq![ins[0].0]
        } else {
            Seq::empty()
        }) + spec_ignored(ins.drop_first())
    }
}

/// The entries of `m` whose flag in `keep` is set, in order.
pub open spec fn mask_filter(m: Seq<(Seq<char>, Stamp)>, keep: Seq<bool>) -> Seq<
    (Seq<char>, Stamp),
>
    decreases m.len(),
{
    if m.len() == 0 {
        Seq::empty()
    } else {
        (if keep[0] {
            seq![m[0]]
        } else {
            Seq::empty()
        }) + mask_filter(m.drop_first(), keep.drop_first())
    }
}

proof fn lemma_mask_filter_push(
    m: Seq<(Seq<char>, Stamp)>,
    keep: Seq<bool>,
    e: (Seq<char>, Stamp),
    b: bool,
)
    requires
        keep.len() == m.len(),
    ensures
        mask_filter(m.push(e), keep.push(b)) == mask_filter(m, keep) + (if b {
            seq![e]
        } else {
            Seq::<(Seq<char>, Stamp)>::empty()
        }),
    decreases m.len(),
{
    let tail = if b {
        seq![e]
    } else {
        Seq::<(Seq<char>, Stamp)>::empty()
    };
    if m.len() == 0 {
        assert(m.push(e)[0] == e);
        assert(m.push(e).drop_first() =~= Seq::<(Seq<char>, Stamp)>::empty());
        assert(keep.push(b).drop_first() =~= Seq::<bool>::empty());
        assert(mask_filter(Seq::empty(), Seq::empty()) == Seq::<(Seq<char>, Stamp)>::empty());
        assert(mask_filter(m, keep) == Seq::<(Seq<char>, Stamp)>::empty());
        assert(mask_filter(m.push(e), keep.push(b)) =~= mask_filter(m, keep) + tail);
    } else {
        assert(m.push(e)[0] == m[0]);
        assert(keep.push(b)[0] == keep[0]);
        assert(m.push(e).drop_first() =~= m.drop_first().push(e));
        assert(keep.push(b).drop_first() =~= keep.drop_first().push(b));
        lemma_mask_filter_push(m.drop_first(), keep.drop_first(), e, b);
        assert(mask_filter(m.push(e), keep.push(b)) =~= mask_filter(m, keep) + tail);
    }
}

/// A path present after masking was present before.
pub proof fn lemma_mask_filter_sub(m: Seq<(Seq<char>, Stamp)>, keep: Seq<bool>, p: Seq<char>)
    requires
        keep.len() == m.len(),
        has_path(mask_filter(m, keep), p),
    ensures
        has_path(m, p),
    decreases m.len(),
{
    let f = mask_filter(m, keep);
    let i = choose|i: int| 0 <= i < f.len() && (#[trigger] f[i]).0 == p;
    let head = if keep[0] {
        seq![m[0]]
    } else {
        Seq::<(Seq<char>, Stamp)>::empty()
    };
    if keep[0] && i == 0 && m.len() > 0 {
        assert(f[0] == m[0]);
        assert(has_path(m, p));
    } else {
        assert(m.len() > 0);
        let j = i - head.len();
        let f2 = mask_filter(m.drop_first(), keep.drop_first());
        assert(f2[j] == f[i]);
        assert(has_path(f2, p));
        lemma_mask_filter_sub(m.drop_first(), keep.drop_first(), p);
        let k = choose|k: int|
            0 <= k < m.drop_first().len() && (#[trigger] m.drop_first()[k]).0 == p;
        assert(m[k + 1] == m.drop_first()[k]);
        assert(has_path(m, p));
    }
}

/// Masking keeps the model well formed.
pub proof fn lemma_mask_filter_wf(m: Seq<(Seq<char>, Stamp)>, keep: Seq<bool>)
    requires
        keep.len() == m.len(),
        wf_model(m),
    ensures
        wf_model(mask_filter(m, keep)),
    decreases m.len(),
{
    if m.len() == 0 {
    } else {
        let f = mask_filter(m, keep);
        let f2 = mask_filter(m.drop_first(), keep.drop_first());
        assert(wf_model(m.drop_first())) by {
            assert(forall|i: int|
                0 <= i < m.drop_first().len() ==> (#[trigger] m.drop_first()[i]) == m[i + 1]);
        }
        lemma_mask_filter_wf(m.drop_first(), keep.drop_first());
        if keep[0] {
            assert(f == seq![m[0]] + f2);
            assert(f[0] == m[0]);
            assert(forall|i: int| 0 <= i < f2.len() ==> (#[trigger] f2[i]) == f[i + 1]);
            assert(!has_path(f2, m[0].0)) by {
                if has_path(f2, m[0].0) {
                    lemma_mask_filter_sub(m.drop_first(), keep.drop_first(), m[0].0);
                    let k = choose|k: int|
                        0 <= k < m.drop_first().len() && (#[trigger] m.drop_first()[k]).0 == m[0].0;
                    assert(m[k + 1] == m.drop_first()[k]);
                    assert(false);
                }
            }
            assert(forall|i: int, j: int|
                0 <= i < f.len() && 0 <= j < f.len() && i != j ==> (#[trigger] f[i]).0 != (
                #[trigger] f[j]).0) by {
                assert(forall|i: int|
                    1 <= i < f.len() ==> (#[trigger] f[i]) == f2[i - 1]);
                assert(forall|i: int|
                    1 <= i < f.len() ==> (#[trigger] f[i]).0 != m[0].0);
            }
            assert(forall|i: int| 0 <= i < f.len() ==> (#[trigger] f[i]).1.wf()) by {
                assert(forall|i: int|
                    1 <= i < f.len() ==> (#[trigger] f[i]) == f2[i - 1]);
            }
        } else {
            assert(f =~= f2);
        }
    }
}

/// Whether an entry counts as stale at `now` against `threshold`: its
/// first-seen instant is not in the future, and the elapsed time since it
/// is at least the threshold (equality included).
pub open spec fn stale_entry(e: (Seq<char>, Stamp), now: Stamp, threshold: Span) -> bool {
    e.1.le_spec(now) && span_between(e.1, now).ge_spec(threshold)
}

/// The stale report of a model: the stale entries in order, each with its
/// elapsed time.
pub open spec fn spec_stale(m: Seq<(Seq<char>, Stamp)>, now: Stamp, threshold: Span) -> Seq<
    (Seq<char>, Span),
>
    decreases m.len(),
{
    if m.len() == 0 {
        Seq::empty()
    } else {
        (if stale_entry(m[0], now, threshold) {
            seq![(m[0].0, span_between(m[0].1, now))]
        } else {
            Seq::empty()
        }) + spec_stale(m.drop_first(), now, threshold)
    }
}

proof fn lemma_spec_stale_push(
    m: Seq<(Seq<char>, Stamp)>,
    e: (Seq<char>, Stamp),
    now: Stamp,
    threshold: Span,
)
    ensures
        spec_stale(m.push(e), now, threshold) == spec_stale(m, now, threshold) + (if stale_entry(
            e,
            now,
            threshold,
        ) {
            seq![(e.0, span_between(e.1, now))]
        } else {
            Seq::<(Seq<char>, Span)>::empty()
        }),
    decreases m.len(),
{
    let tail = if stale_entry(e, now, threshold) {
        seq![(e.0, span_between(e.1, now))]
    } else {
        Seq::<(Seq<char>, Span)>::empty()
    };
    if m.len() == 0 {
        assert(m.push(e)[0] == e);
        assert(m.push(e).drop_first() =~= Seq::<(Seq<char>, Stamp)>::empty());
        assert(spec_stale(Seq::empty(), now, threshold) == Seq::<(Seq<char>, Span)>::empty());
        assert(spec_stale(m, now, threshold) == Seq::<(Seq<char>, Span)>::empty());
        assert(spec_stale(m.push(e), now, threshold) =~= spec_stale(m, now, threshold) + tail);
    } else {
        assert(m.push(e)[0] == m[0]);
        assert(m.push(e).drop_first() =~= m.drop_first().push(e));
        lemma_spec_stale_push(m.drop_first(), e, now, threshold);
        assert(spec_stale(m.push(e), now, threshold) =~= spec_stale(m, now, threshold) + tail);
    }
}

/// One line of the stale report: a path and its elapsed time.
pub struct StaleEntry {
    pub path: String,
    pub elapsed: Span,
}

impl View for StaleEntry {
    type V = (Seq<char>, Span);

    open spec fn view(&self) -> (Seq<char>, Span) {
        (self.path@, self.elapsed)
    }
}

/// The ephemeral stale report derived from a database and an instant.
pub struct StaleFiles {
    pub data: Vec<StaleEntry>,
}

impl View for StaleFiles {
    type V = Seq<(Seq<char>, Span)>;

    open spec fn view(&self) -> Seq<(Seq<char>, Span)> {
        self.data@.map_values(|e: StaleEntry| e@)
    }
}

/// The display form of a stale report: one line per entry, the quoted raw
/// path, then the formatted elapsed duration.
pub open spec fn spec_render_stale(m: Seq<(Seq<char>, Span)>) -> Seq<char>
    decreases m.len(),
{
    if m.len() == 0 {
        Seq::empty()
    } else {
        seq!['"'] + m[0].0 + seq!['"', ':', ' '] + spec_fmt_duration(m[0].1.secs) + seq!['\n']
            + spec_render_stale(m.drop_first())
    }
}

/// The display form of the full listing: one line per entry, the quoted
/// path, then the raw first-seen instant.
pub open spec fn spec_render_list(m: Seq<(Seq<char>, Stamp)>) -> Seq<char>
    decreases m.len(),
{
    if m.len() == 0 {
        Seq::empty()
    } else {
        seq!['"'] + m[0].0 + seq!['"', ':', ' ', '('] + dec_rep(m[0].1.secs as nat) + seq![
            ',',
            ' ',
        ] + dec_rep(m[0].1.nanos as nat) + seq![')', '\n'] + spec_render_list(m.drop_first())
    }
}

fn render_stale_from(data: &Vec<StaleEntry>, k: usize, out: &mut String)
    requires
        k <= data.len(),
    ensures
        final(out)@ == old(out)@ + spec_render_stale(
            data@.map_values(|e: StaleEntry| e@).subrange(k as int, data@.len() as int),
        ),
    decreases data.len() - k,
{
    let ghost m = data@.map_values(|e: StaleEntry| e@);
    let ghost suf = m.subrange(k as int, m.len() as int);
    if k == data.len() {
        proof {
            assert(out@ + Seq::<char>::empty() =~= out@);
        }
        return ;
    }
    assert(suf[0] == m[k as int]);
    push_char(out, '"');
    out.append(data[k].path.as_str());
    push_char(out, '"');
    push_char(out, ':');
    push_char(out, ' ');
    let formatted = fmt_duration(&data[k].elapsed);
    out.append(formatted.as_str());
    push_char(out, '\n');
    let ghost line = seq!['"'] + m[k as int].0 + seq!['"', ':', ' '] + spec_fmt_duration(
        m[k as int].1.secs,
    ) + seq!['\n'];
    assert(out@ =~= old(out)@ + line);
    render_stale_from(data, k + 1, out);
    proof {
        assert(suf.drop_first() =~= m.subrange(k + 1 as int, m.len() as int));
        assert(spec_render_stale(suf) == line + spec_render_stale(suf.drop_first()));
        assert((old(out)@ + line) + spec_render_stale(suf.drop_first()) =~= old(out)@
            + spec_render_stale(suf));
    }
}

fn render_list_from(data: &Vec<Entry>, k: usize, out: &mut String)
    requires
        k <= data.len(),
    ensures
        final(out)@ == old(out)@ + spec_render_list(
            data@.map_values(|e: Entry| e@).subrange(k as int, data@.len() as int),
        ),
    decreases data.len() - k,
{
    let ghost m = data@.map_values(|e: Entry| e@);
    let ghost suf = m.subrange(k as int, m.len() as int);
    if k == data.len() {
        proof {
            assert(out@ + Seq::<char>::empty() =~= out@);
        }
        return ;
    }
    assert(suf[0] == m[k as int]);
    push_char(out, '"');
    out.append(data[k].path.as_str());
    push_char(out, '"');
    push_char(out, ':');
    push_char(out, ' ');
    push_char(out, '(');
    push_u64(out, data[k].first_seen.secs);
    push_char(out, ',');
    push_char(out, ' ');
    let nanos64: u64 = data[k].first_seen.nanos as u64;
    push_u64(out, nanos64);
    push_char(out, ')');
    push_char(out, '\n');
    let ghost line = seq!['"'] + m[k as int].0 + seq!['"', ':', ' ', '('] + dec_rep(
        m[k as int].1.secs as nat,
    ) + seq![',', ' '] + dec_rep(m[k as int].1.nanos as nat) + seq![')', '\n'];
    proof {
        assert(nanos64 as nat == m[k as int].1.nanos as nat);
        assert(out@ =~= old(out)@ + line);
    }
    render_list_from(data, k + 1, out);
    proof {
        assert(suf.drop_first() =~= m.subrange(k + 1 as int, m.len() as int));
        assert(spec_render_list(suf) == line + spec_render_list(suf.drop_first()));
        assert((old(out)@ + line) + spec_render_list(suf.drop_first()) =~= old(out)@
            + spec_render_list(suf));
    }
}

impl StaleFiles {
    /// The number of stale entries.
    pub fn len(&self) -> (n: usize)
        ensures
            n == self@.len(),
    {
        self.data.len()
    }

    /// The report's display text.
    pub fn render(&self) -> (r: String)
        ensures
            r@ == spec_render_stale(self@),
    {
        let mut out = String::new();
        proof {
            assert(self.data@.map_values(|e: StaleEntry| e@).subrange(
                0,
                self.data@.len() as int,
            ) =~= self@);
        }
        render_stale_from(&self.data, 0, &mut out);
        proof {
            assert(Seq::<char>::empty() + spec_render_stale(self@) =~= spec_render_stale(self@));
        }
        out
    }
}

/// Law: registering the same canonical path twice leaves one entry whose
/// instant is the one recorded at the first registration.
pub proof fn lemma_track_idempotent(
    m: Seq<(Seq<char>, Stamp)>,
    p: Seq<char>,
    t1: Stamp,
    t2: Stamp,
)
    requires
        wf_model(m),
    ensures
        spec_track(spec_track(m, p, t1), p, t2) == spec_track(m, p, t1),
        first_seen_of(spec_track(m, p, t1), p) == (if has_path(m, p) {
            first_seen_of(m, p)
        } else {
            t1
        }),
{
    let m1 = spec_track(m, p, t1);
    if has_path(m, p) {
        assert(m1 == m);
    } else {
        assert(m1 == m.push((p, t1)));
        assert(m1[m.len() as int] == (p, t1));
        assert(has_path(m1, p));
        let j = idx_of(m1, p);
        assert(0 <= j < m1.len() && m1[j].0 == p);
        if j < m.len() {
            assert(m1[j] == m[j]);
            assert(has_path(m, p));
            assert(false);
        }
        assert(j == m.len());
        assert(first_seen_of(m1, p) == t1);
    }
}

/// Law: after a batch registration, a path is tracked exactly when it was
/// tracked before or is the canonical form of some resolved input.
pub proof fn lemma_track_batch_partition(
    m: Seq<(Seq<char>, Stamp)>,
    ins: Seq<(Seq<char>, Option<Seq<char>>)>,
    t: Stamp,
    p: Seq<char>,
)
    ensures
        has_path(spec_track_all(m, ins, t), p) <==> (has_path(m, p) || exists|i: int|
            0 <= i < ins.len() && (#[trigger] ins[i]).1 == Some(p)),
    decreases ins.len(),
{
    if ins.len() == 0 {
    } else {
        let m1 = match ins[0].1 {
            Some(c) => spec_track(m, c, t),
            None => m,
        };
        lemma_track_batch_partition(m1, ins.drop_first(), t, p);
        match ins[0].1 {
            Some(c) => {
                assert(has_path(m1, p) <==> (has_path(m, p) || c == p)) by {
                    if c == p && !has_path(m, p) {
                        assert(m1 == m.push((c, t)));
                        assert(m1[m.len() as int] == (c, t));
                        assert(has_path(m1, p));
                    }
                    if has_path(m, p) {
                        let j = idx_of(m, p);
                        assert(0 <= j < m.len() && m[j].0 == p);
                        if !has_path(m, c) {
                            assert(m1[j] == m[j]);
                        }
                        assert(has_path(m1, p));
                    }
                    if has_path(m1, p) && c != p && !has_path(m, c) {
                        let j = choose|j: int|
                            0 <= j < m1.len() && (#[trigger] m1[j]).0 == p;
                        assert(m1 == m.push((c, t)));
                        assert(j < m.len());
                        assert(m1[j] == m[j]);
                        assert(has_path(m, p));
                    }
                };
                assert((exists|i: int|
                    0 <= i < ins.len() && (#[trigger] ins[i]).1 == Some(p)) <==> (c == p
                    || exists|i: int|
                    0 <= i < ins.drop_first().len() && (#[trigger] ins.drop_first()[i]).1 == Some(
                        p,
                    ))) by {
                    if exists|i: int| 0 <= i < ins.len() && (#[trigger] ins[i]).1 == Some(p) {
                        let i = choose|i: int|
                            0 <= i < ins.len() && (#[trigger] ins[i]).1 == Some(p);
                        if i > 0 {
                            assert(ins.drop_first()[i - 1] == ins[i]);
                        }
                    }
                    if exists|i: int|
                        0 <= i < ins.drop_first().len() && (#[trigger] ins.drop_first()[i]).1
                            == Some(p) {
                        let i = choose|i: int|
                            0 <= i < ins.drop_first().len() && (#[trigger] ins.drop_first()[i]).1
                                == Some(p);
                        assert(ins[i + 1] == ins.drop_first()[i]);
                    }
                    if c == p {
                        assert(ins[0].1 == Some(p));
                    }
                };
            },
            None => {
                assert((exists|i: int|
                    0 <= i < ins.len() && (#[trigger] ins[i]).1 == Some(p)) <==> (exists|i: int|
                    0 <= i < ins.drop_first().len() && (#[trigger] ins.drop_first()[i]).1 == Some(
                        p,
                    ))) by {
                    if exists|i: int| 0 <= i < ins.len() && (#[trigger] ins[i]).1 == Some(p) {
                        let i = choose|i: int|
                            0 <= i < ins.len() && (#[trigger] ins[i]).1 == Some(p);
                        assert(i > 0);
                        assert(ins.drop_first()[i - 1] == ins[i]);
                    }
                    if exists|i: int|
                        0 <= i < ins.drop_first().len() && (#[trigger] ins.drop_first()[i]).1
                            == Some(p) {
                        let i = choose|i: int|
                            0 <= i < ins.drop_first().len() && (#[trigger] ins.drop_first()[i]).1
                                == Some(p);
                        assert(ins[i + 1] == ins.drop_first()[i]);
                    }
                };
            },
        }
    }
}

/// Law: an entry whose flag is cleared does not survive masking.
pub proof fn lemma_mask_filter_drops(m: Seq<(Seq<char>, Stamp)>, keep: Seq<bool>, i: int)
    requires
        keep.len() == m.len(),
        wf_model(m),
        0 <= i < m.len(),
        !keep[i],
    ensures
        !has_path(mask_filter(m, keep), m[i].0),
    decreases m.len(),
{
    let f = mask_filter(m, keep);
    let f2 = mask_filter(m.drop_first(), keep.drop_first());
    assert(wf_model(m.drop_first())) by {
        assert(forall|k: int|
            0 <= k < m.drop_first().len() ==> (#[trigger] m.drop_first()[k]) == m[k + 1]);
    }
    if i == 0 {
        assert(f =~= f2);
        if has_path(f2, m[0].0) {
            lemma_mask_filter_sub(m.drop_first(), keep.drop_first(), m[0].0);
            let k = choose|k: int|
                0 <= k < m.drop_first().len() && (#[trigger] m.drop_first()[k]).0 == m[0].0;
            assert(m[k + 1] == m.drop_first()[k]);
            assert(false);
        }
    } else {
        assert(m.drop_first()[i - 1] == m[i]);
        lemma_mask_filter_drops(m.drop_first(), keep.drop_first(), i - 1);
        if keep[0] {
            assert(f == seq![m[0]] + f2);
            if has_path(f, m[i].0) {
                let j = choose|j: int| 0 <= j < f.len() && (#[trigger] f[j]).0 == m[i].0;
                if j == 0 {
                    assert(f[0] == m[0]);
                    assert(m[0].0 != m[i].0);
                    assert(false);
                } else {
                    assert(f[j] == f2[j - 1]);
                    assert(has_path(f2, m[i].0));
                    assert(false);
                }
            }
        } else {
            assert(f =~= f2);
        }
    }
}

} // verus!
