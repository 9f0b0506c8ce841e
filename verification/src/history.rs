//! Usage history: a persisted mapping from canonical program path to a
//! launch counter and the time of the most recent launch.

use vstd::prelude::*;

verus! {

/// Usage statistics of one program.
#[derive(Clone, Copy, PartialEq, Eq, Structural, Debug)]
pub struct HistoryEntry {
    /// Number of successful launches.
    pub rank: u32,
    /// Unix timestamp, in seconds, of the most recent launch.
    pub access: u64,
}

/// The mapping a sequence of path/record pairs denotes: later pairs win.
pub open spec fn pairs_to_map(s: Seq<(String, HistoryEntry)>) -> Map<Seq<char>, HistoryEntry>
    decreases s.len(),
{
    if s.len() == 0 {
        Map::empty()
    } else {
        pairs_to_map(s.drop_last()).insert(s.last().0@, s.last().1)
    }
}

/// A key is in the denoted mapping exactly when some pair carries it.
proof fn lemma_pairs_to_map_contains(s: Seq<(String, HistoryEntry)>, k: Seq<char>)
    ensures
        pairs_to_map(s).contains_key(k) <==> exists|i: int|
            0 <= i < s.len() && (#[trigger] s[i].0)@ == k,
    decreases s.len(),
{
    if s.len() == 0 {
    } else {
        lemma_pairs_to_map_contains(s.drop_last(), k);
        if pairs_to_map(s).contains_key(k) {
            if s.last().0@ == k {
                assert(s[s.len() - 1].0@ == k);
            } else {
                let i = choose|i: int| 0 <= i < s.len() - 1 && (#[trigger] s.drop_last()[i].0)@ == k;
                assert(s[i].0@ == k);
            }
        }
        if exists|i: int| 0 <= i < s.len() && (#[trigger] s[i].0)@ == k {
            let i = choose|i: int| 0 <= i < s.len() && (#[trigger] s[i].0)@ == k;
            if i < s.len() - 1 {
                assert(s.drop_last()[i].0@ == k);
            }
        }
    }
}

/// With pairwise distinct keys, each pair's record is the one the denoted
/// mapping assigns to its key.
proof fn lemma_pairs_to_map_value(s: Seq<(String, HistoryEntry)>, i: int)
    requires
        forall|x: int, y: int| 0 <= x < y < s.len() ==> (#[trigger] s[x].0)@ != (#[trigger] s[y].0)@,
        0 <= i < s.len(),
    ensures
        pairs_to_map(s).contains_key(s[i].0@),
        pairs_to_map(s)[s[i].0@] == s[i].1,
    decreases s.len(),
{
    lemma_pairs_to_map_contains(s, s[i].0@);
    if i == s.len() - 1 {
    } else {
        assert(forall|x: int, y: int|
            0 <= x < y < s.drop_last().len() ==> (#[trigger] s.drop_last()[x].0)@ != (
            #[trigger] s.drop_last()[y].0)@);
        lemma_pairs_to_map_value(s.drop_last(), i);
        assert(s[i].0@ != s.last().0@);
    }
}

/// The record a launch at time `now` leaves for a path in history `h`: a
/// first launch is recorded with rank 1, a repeated launch increments the
/// rank, and either way the access time becomes `now`.
pub open spec fn bumped(h: Map<Seq<char>, HistoryEntry>, path: Seq<char>, now: u64) -> HistoryEntry {
    if h.contains_key(path) {
        HistoryEntry { rank: (h[path].rank + 1) as u32, access: now }
    } else {
        HistoryEntry { rank: 1, access: now }
    }
}

/// Recording a launch never moves a path's access time backwards: as long
/// as the clock did not run backwards, the new access time is at least the
/// previously recorded one, and the rank grows by one from its old value
/// (from zero for a path without a record).
pub proof fn lemma_bumped_monotone(h: Map<Seq<char>, HistoryEntry>, path: Seq<char>, now: u64)
    requires
        h.contains_key(path) ==> h[path].access <= now,
        h.contains_key(path) ==> h[path].rank < u32::MAX,
    ensures
        h.contains_key(path) ==> bumped(h, path, now).access >= h[path].access,
        bumped(h, path, now).access == now,
        bumped(h, path, now).rank == if h.contains_key(path) {
            h[path].rank + 1
        } else {
            1
        },
{
}

/// The usage history of all programs, keyed by canonical path.
pub struct History {
    entries: Vec<(String, HistoryEntry)>,
}

impl History {
    /// No two stored pairs carry the same path.
    pub closed spec fn wf(self) -> bool {
        forall|x: int, y: int|
            0 <= x < y < self.entries@.len() ==> (#[trigger] self.entries@[x].0)@ != (
            #[trigger] self.entries@[y].0)@
    }

    /// An empty history, the starting point when no document is persisted.
    pub fn new() -> (r: History)
        ensures
            r.wf(),
            r@ == Map::<Seq<char>, HistoryEntry>::empty(),
    {
        History { entries: Vec::new() }
    }

    /// The record stored for `path`, if any.
    pub fn lookup(&self, path: &String) -> (r: Option<HistoryEntry>)
        requires
            self.wf(),
        ensures
            match r {
                Some(h) => self@.contains_key(path@) && self@[path@] == h,
                None => !self@.contains_key(path@),
            },
    {
        let mut i: usize = 0;
        while i < self.entries.len()
            invariant
                self.wf(),
                i <= self.entries@.len(),
                forall|j: int| 0 <= j < i ==> (#[trigger] self.entries@[j].0)@ != path@,
            decreases self.entries@.len() - i,
        {
            if self.entries[i].0 == *path {
                proof {
                    lemma_pairs_to_map_value(self.entries@, i as int);
                }
                return Some(self.entries[i].1);
            }
            i = i + 1;
        }
        proof {
            lemma_pairs_to_map_contains(self.entries@, path@);
        }
        None
    }

    /// Stores `rec` under `path`, replacing any earlier record.
    pub fn put(&mut self, path: String, rec: HistoryEntry)
        requires
            old(self).wf(),
        ensures
            final(self).wf(),
            final(self)@ == old(self)@.insert(path@, rec),
    {
        let ghost s0 = self.entries@;
        let mut i: usize = 0;
        while i < self.entries.len()
            invariant
                self.wf(),
                self.entries@ == s0,
                s0 == old(self).entries@,
                i <= s0.len(),
                forall|j: int| 0 <= j < i ==> (#[trigger] s0[j].0)@ != path@,
            decreases s0.len() - i,
        {
            if self.entries[i].0 == path {
                self.entries[i] = (path, rec);
                proof {
                    lemma_update_pair(s0, i as int, self.entries@[i as int]);
                    assert(forall|x: int|
                        0 <= x < self.entries@.len() ==> (#[trigger] self.entries@[x].0)@ == (
                        s0[x].0)@);
                    assert(self@ =~= old(self)@.insert(path@, rec));
                }
                return ;
            }
            i = i + 1;
        }
        self.entries.push((path, rec));
        proof {
            assert(self.entries@.drop_last() =~= s0);
        }
    }

    /// Records a launch of `path` at time `now`: a first launch is stored
    /// with rank 1, a repeated launch increments the rank, and either way
    /// the access time becomes `now`.
    pub fn record_launch(&mut self, path: &String, now: u64)
        requires
            old(self).wf(),
            old(self)@.contains_key(path@) ==> old(self)@[path@].rank < u32::MAX,
        ensures
            final(self).wf(),
            final(self)@ == old(self)@.insert(path@, bumped(old(self)@, path@, now)),
    {
        let rec = match self.lookup(path) {
            Some(h) => HistoryEntry { rank: h.rank + 1, access: now },
            None => HistoryEntry { rank: 1, access: now },
        };
        self.put(path.clone(), rec);
    }

    /// The stored pairs: exactly the graph of the mapping, each path once.
    pub fn items(&self) -> (r: &Vec<(String, HistoryEntry)>)
        requires
            self.wf(),
        ensures
            forall|i: int|
                0 <= i < r@.len() ==> self@.contains_key((#[trigger] r@[i].0)@) && self@[r@[i].0@]
                    == r@[i].1,
            forall|x: int, y: int| 0 <= x < y < r@.len() ==> (#[trigger] r@[x].0)@ != (#[trigger] r@[y].0)@,
            forall|k: Seq<char>|
                self@.contains_key(k) ==> exists|i: int| 0 <= i < r@.len() && (#[trigger] r@[i].0)@ == k,
    {
        proof {
            assert forall|i: int| 0 <= i < self.entries@.len() implies self@.contains_key(
                (#[trigger] self.entries@[i].0)@,
            ) && self@[self.entries@[i].0@] == self.entries@[i].1 by {
                lemma_pairs_to_map_value(self.entries@, i);
            }
            assert forall|k: Seq<char>| self@.contains_key(k) implies exists|i: int|
                0 <= i < self.entries@.len() && (#[trigger] self.entries@[i].0)@ == k by {
                lemma_pairs_to_map_contains(self.entries@, k);
            }
        }
        &self.entries
    }

    /// Rebuilds a history from loaded pairs; a repeated path keeps the
    /// later record, as a repeated key in a parsed document would.
    pub fn from_pairs(pairs: Vec<(String, HistoryEntry)>) -> (r: History)
        ensures
            r.wf(),
            r@ == pairs_to_map(pairs@),
    {
        let mut h = History::new();
        let mut i: usize = 0;
        while i < pairs.len()
            invariant
                h.wf(),
                i <= pairs@.len(),
                h@ == pairs_to_map(pairs@.take(i as int)),
            decreases pairs@.len() - i,
        {
            let (p, rec) = (pairs[i].0.clone(), pairs[i].1);
            h.put(p, rec);
            proof {
                assert(pairs@.take(i + 1).drop_last() =~= pairs@.take(i as int));
                assert(pairs@.take(i + 1).last() == pairs@[i as int]);
            }
            i = i + 1;
        }
        proof {
            assert(pairs@.take(pairs@.len() as int) =~= pairs@);
        }
        h
    }
}

impl View for History {
    type V = Map<Seq<char>, HistoryEntry>;

    closed spec fn view(&self) -> Map<Seq<char>, HistoryEntry> {
        pairs_to_map(self.entries@)
    }
}

/// Replacing the pair at a position whose key is unchanged updates the
/// denoted mapping at that key.
proof fn lemma_update_pair(s: Seq<(String, HistoryEntry)>, i: int, p: (String, HistoryEntry))
    requires
        forall|x: int, y: int| 0 <= x < y < s.len() ==> (#[trigger] s[x].0)@ != (#[trigger] s[y].0)@,
        0 <= i < s.len(),
        p.0@ == s[i].0@,
    ensures
        pairs_to_map(s.update(i, p)) == pairs_to_map(s).insert(p.0@, p.1),
    decreases s.len(),
{
    let t = s.update(i, p);
    if i == s.len() - 1 {
        assert(t.drop_last() =~= s.drop_last());
        assert(t.last() == p);
    } else {
        assert(t.drop_last() =~= s.drop_last().update(i, p));
        assert(forall|x: int, y: int|
            0 <= x < y < s.drop_last().len() ==> (#[trigger] s.drop_last()[x].0)@ != (
            #[trigger] s.drop_last()[y].0)@);
        lemma_update_pair(s.drop_last(), i, p);
        assert(t.last() == s.last());
        assert(s[i].0@ != s.last().0@);
        assert(pairs_to_map(t) =~= pairs_to_map(s).insert(p.0@, p.1));
    }
}

} // verus!
