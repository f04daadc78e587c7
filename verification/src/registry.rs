use vstd::prelude::*;

use crate::geo::Position;
use crate::ident::{icao_of, valid_icao_str, Icao};
use crate::track::{
    entity_wf, initial_entity, merge, merge_entity, DecodedReport, TrackedEntity,
};

verus! {

/// No two stored pairs name the same identifier.
pub open spec fn keys_unique(s: Seq<(u32, TrackedEntity)>) -> bool {
    forall|i: int, j: int| 0 <= i < j < s.len() ==> (#[trigger] s[i]).0 != (#[trigger] s[j]).0
}

/// The mapping an association list stands for; a later pair wins, though the
/// registry keeps its keys unique so each key occurs once.
pub open spec fn s2m(s: Seq<(u32, TrackedEntity)>) -> Map<u32, TrackedEntity>
    decreases s.len(),
{
    if s.len() == 0 {
        Map::empty()
    } else {
        s2m(s.drop_last()).insert(s.last().0, s.last().1)
    }
}

/// A key is in the mapping exactly when some pair names it.
proof fn lemma_s2m_contains(s: Seq<(u32, TrackedEntity)>, k: u32)
    ensures
        s2m(s).contains_key(k) <==> exists|i: int| 0 <= i < s.len() && (#[trigger] s[i]).0 == k,
    decreases s.len(),
{
    if s.len() > 0 {
        lemma_s2m_contains(s.drop_last(), k);
        if s.last().0 == k {
            assert(s[s.len() - 1].0 == k);
        } else if exists|i: int| 0 <= i < s.len() && (#[trigger] s[i]).0 == k {
            let i = choose|i: int| 0 <= i < s.len() && (#[trigger] s[i]).0 == k;
            assert(s.drop_last()[i] == s[i]);
        }
    }
}

/// With unique keys, each pair is what the mapping holds for its key.
proof fn lemma_s2m_index(s: Seq<(u32, TrackedEntity)>, i: int)
    requires
        keys_unique(s),
        0 <= i < s.len(),
    ensures
        s2m(s).contains_key(s[i].0),
        s2m(s)[s[i].0] == s[i].1,
    decreases s.len(),
{
    if i < s.len() - 1 {
        lemma_s2m_index(s.drop_last(), i);
        assert(s.drop_last()[i] == s[i]);
    }
}

/// With unique keys, the mapping has one entry per pair.
proof fn lemma_s2m_len(s: Seq<(u32, TrackedEntity)>)
    requires
        keys_unique(s),
    ensures
        s2m(s).dom().finite(),
        s2m(s).dom().len() == s.len(),
    decreases s.len(),
{
    broadcast use vstd::set::group_set_axioms;

    if s.len() > 0 {
        lemma_s2m_len(s.drop_last());
        lemma_s2m_contains(s.drop_last(), s.last().0);
        assert(forall|i: int| 0 <= i < s.len() - 1 ==> (#[trigger] s.drop_last()[i]) == s[i]);
        assert(!s2m(s.drop_last()).contains_key(s.last().0));
    }
}

/// Replacing the pair at one key rewrites exactly that key's entry.
proof fn lemma_s2m_update(s: Seq<(u32, TrackedEntity)>, i: int, v: TrackedEntity)
    requires
        keys_unique(s),
        0 <= i < s.len(),
    ensures
        s2m(s.update(i, (s[i].0, v))) == s2m(s).insert(s[i].0, v),
        keys_unique(s.update(i, (s[i].0, v))),
    decreases s.len(),
{
    let t = s.update(i, (s[i].0, v));
    assert(forall|j: int| 0 <= j < s.len() && j != i ==> (#[trigger] t[j]) == s[j]);
    if i == s.len() - 1 {
        assert(t.drop_last() =~= s.drop_last());
        assert(s2m(t) =~= s2m(s).insert(s[i].0, v));
    } else {
        lemma_s2m_update(s.drop_last(), i, v);
        assert(s.drop_last()[i] == s[i]);
        assert(t.drop_last() =~= s.drop_last().update(i, (s[i].0, v)));
        assert(t.last() == s.last());
        assert(s[i].0 != s.last().0);
        assert(s2m(t) =~= s2m(s).insert(s[i].0, v));
    }
}

/// Whether a record is still fresh at time `now` under the staleness
/// threshold `max_age`: it has been updated within the last `max_age` ticks.
pub open spec fn fresh_at(e: TrackedEntity, now: u64, max_age: u64) -> bool {
    e.last_update + max_age >= now
}

/// The pairs of an association list whose records are still fresh, in order.
pub open spec fn filter_fresh(
    s: Seq<(u32, TrackedEntity)>,
    now: u64,
    max_age: u64,
) -> Seq<(u32, TrackedEntity)>
    decreases s.len(),
{
    if s.len() == 0 {
        Seq::empty()
    } else if fresh_at(s.last().1, now, max_age) {
        filter_fresh(s.drop_last(), now, max_age).push(s.last())
    } else {
        filter_fresh(s.drop_last(), now, max_age)
    }
}

/// Keeping only the fresh pairs of a unique-key list removes exactly the
/// stale keys from the mapping and leaves the kept entries unchanged.
proof fn lemma_filter_fresh(s: Seq<(u32, TrackedEntity)>, now: u64, max_age: u64)
    requires
        keys_unique(s),
    ensures
        keys_unique(filter_fresh(s, now, max_age)),
        forall|j: int|
            0 <= j < filter_fresh(s, now, max_age).len() ==> exists|l: int|
                0 <= l < s.len() && s[l] == #[trigger] filter_fresh(s, now, max_age)[j],
        forall|k: u32|
            #[trigger] s2m(filter_fresh(s, now, max_age)).contains_key(k) <==> (s2m(
                s,
            ).contains_key(k) && fresh_at(s2m(s)[k], now, max_age)),
        forall|k: u32|
            s2m(filter_fresh(s, now, max_age)).contains_key(k) ==> #[trigger] s2m(
                filter_fresh(s, now, max_age),
            )[k] == s2m(s)[k],
    decreases s.len(),
{
    if s.len() > 0 {
        let d = s.drop_last();
        let f = filter_fresh(s, now, max_age);
        let fd = filter_fresh(d, now, max_age);
        lemma_filter_fresh(d, now, max_age);
        assert(forall|i: int| 0 <= i < d.len() ==> (#[trigger] d[i]) == s[i]);
        lemma_s2m_contains(d, s.last().0);
        assert(!s2m(d).contains_key(s.last().0));
        lemma_s2m_contains(fd, s.last().0);
        assert forall|j: int| 0 <= j < fd.len() implies (#[trigger] fd[j]).0 != s.last().0 by {
            if fd[j].0 == s.last().0 {
                assert(s2m(fd).contains_key(s.last().0));
            }
        }
        if fresh_at(s.last().1, now, max_age) {
            assert(f == fd.push(s.last()));
            assert(f.drop_last() =~= fd);
            assert(s2m(f) == s2m(fd).insert(s.last().0, s.last().1));
            assert forall|i: int, j: int| 0 <= i < j < f.len() implies (#[trigger] f[i]).0
                != (#[trigger] f[j]).0 by {
                if j < f.len() - 1 {
                    assert(f[i] == fd[i] && f[j] == fd[j]);
                } else {
                    assert(f[i] == fd[i] && f[j] == s.last());
                }
            }
            assert forall|k: u32| #[trigger] s2m(f).contains_key(k) <==> (s2m(s).contains_key(k)
                && fresh_at(s2m(s)[k], now, max_age)) by {
                lemma_s2m_contains(s, k);
                lemma_s2m_contains(d, k);
                if k != s.last().0 {
                    assert(s2m(s).contains_key(k) ==> s2m(s)[k] == s2m(d)[k]);
                }
            }
        } else {
            assert(f == fd);
            assert forall|k: u32| #[trigger] s2m(f).contains_key(k) <==> (s2m(s).contains_key(k)
                && fresh_at(s2m(s)[k], now, max_age)) by {
                lemma_s2m_contains(s, k);
                lemma_s2m_contains(d, k);
                if k != s.last().0 {
                    assert(s2m(s).contains_key(k) ==> s2m(s)[k] == s2m(d)[k]);
                }
            }
            assert forall|k: u32|
                s2m(f).contains_key(k) implies #[trigger] s2m(f)[k] == s2m(s)[k] by {
                assert(s2m(f)[k] == s2m(d)[k]);
                assert(k != s.last().0);
            }
        }
    }
}

/// The tracking registry: the mapping from identifier to live record, the
/// observer it measures distances from, and the range sanity bound, both
/// fixed at construction. All mutation and every read goes through one
/// instance; the surrounding application serializes access to it behind a
/// single mutual-exclusion boundary, so no reader ever observes a
/// half-merged record.
pub struct Registry {
    observer: Position,
    max_range: u64,
    entries: Vec<(u32, TrackedEntity)>,
}

impl View for Registry {
    type V = Map<u32, TrackedEntity>;

    closed spec fn view(&self) -> Map<u32, TrackedEntity> {
        s2m(self.entries@)
    }
}

impl Registry {
    /// The fixed observer location distances are measured from.
    pub closed spec fn observer(self) -> Position {
        self.observer
    }

    /// The range sanity bound positions are held to.
    pub closed spec fn max_range(self) -> u64 {
        self.max_range
    }

    /// The registry's internal invariant: the observer is on the globe, keys
    /// are unique, identifiers fit their format, and every record's derived
    /// distance agrees with its position.
    pub closed spec fn wf(self) -> bool {
        &&& self.observer.wf()
        &&& keys_unique(self.entries@)
        &&& forall|i: int|
            0 <= i < self.entries@.len() ==> {
                &&& entity_wf((#[trigger] self.entries@[i]).1, self.observer, self.max_range)
                &&& self.entries@[i].0 < 0x1000000
            }
    }

    /// A well-formed registry holds well-formed records: the derived distance
    /// of any record is defined exactly when its position is, and then equals
    /// the distance of that position from the observer.
    pub proof fn lemma_entity_well_formed(self, k: u32)
        requires
            self.wf(),
            self@.contains_key(k),
        ensures
            entity_wf(self@[k], self.observer(), self.max_range()),
            k < 0x1000000,
    {
        lemma_s2m_contains(self.entries@, k);
        let i = choose|i: int|
            0 <= i < self.entries@.len() && (#[trigger] self.entries@[i]).0 == k;
        lemma_s2m_index(self.entries@, i);
    }

    /// Creates an empty registry for the given observer and range bound.
    pub fn new(observer: Position, max_range: u64) -> (r: Registry)
        requires
            observer.wf(),
        ensures
            r.wf(),
            r@ == Map::<u32, TrackedEntity>::empty(),
            r.observer() == observer,
            r.max_range() == max_range,
    {
        Registry { observer, max_range, entries: Vec::new() }
    }

    /// The number of tracked entities.
    pub fn len(&self) -> (n: usize)
        requires
            self.wf(),
        ensures
            n == self@.dom().len(),
    {
        proof {
            lemma_s2m_len(self.entries@);
        }
        self.entries.len()
    }

    /// The record stored under an identifier, if any.
    pub fn get(&self, id: Icao) -> (r: Option<TrackedEntity>)
        requires
            self.wf(),
        ensures
            r is Some <==> self@.contains_key(id.code),
            r matches Some(e) ==> e == self@[id.code],
    {
        let n = self.entries.len();
        let mut i: usize = 0;
        while i < n
            invariant
                0 <= i <= n,
                n == self.entries@.len(),
                self.wf(),
                forall|j: int| 0 <= j < i ==> (#[trigger] self.entries@[j]).0 != id.code,
            decreases n - i,
        {
            if self.entries[i].0 == id.code {
                proof {
                    lemma_s2m_index(self.entries@, i as int);
                }
                return Some(self.entries[i].1);
            }
            i = i + 1;
        }
        proof {
            lemma_s2m_contains(self.entries@, id.code);
        }
        None
    }

    /// The record a report will be merged into: the one stored under the
    /// report's identifier, or a blank record for a new identifier.
    pub open spec fn entity_or_initial(m: Map<u32, TrackedEntity>, k: u32) -> TrackedEntity {
        if m.contains_key(k) {
            m[k]
        } else {
            initial_entity()
        }
    }

    /// Locates or creates the record for the report's identifier and merges
    /// the report into it field-wise; refreshes that record's `last_update`
    /// and recomputes its distance. Never fails and touches no other record.
    pub fn upsert(&mut self, r: &DecodedReport, now: u64)
        requires
            old(self).wf(),
            r.wf(),
        ensures
            final(self).wf(),
            final(self).observer() == old(self).observer(),
            final(self).max_range() == old(self).max_range(),
            final(self)@ == old(self)@.insert(
                r.icao.code,
                merge_entity(
                    Self::entity_or_initial(old(self)@, r.icao.code),
                    *r,
                    old(self).observer(),
                    old(self).max_range(),
                    now,
                ),
            ),
    {
        let n = self.entries.len();
        let mut i: usize = 0;
        while i < n
            invariant
                0 <= i <= n,
                n == self.entries@.len(),
                self.wf(),
                self == old(self),
                r.wf(),
                forall|j: int| 0 <= j < i ==> (#[trigger] self.entries@[j]).0 != r.icao.code,
            decreases n - i,
        {
            if self.entries[i].0 == r.icao.code {
                proof {
                    lemma_s2m_index(self.entries@, i as int);
                }
                let merged = merge(&self.entries[i].1, r, &self.observer, self.max_range, now);
                proof {
                    lemma_s2m_update(self.entries@, i as int, merged);
                }
                self.entries[i] = (r.icao.code, merged);
                return ;
            }
            i = i + 1;
        }
        proof {
            lemma_s2m_contains(self.entries@, r.icao.code);
        }
        let blank = TrackedEntity {
            position: None,
            altitude: None,
            ground_speed: None,
            heading: None,
            distance: None,
            last_update: 0,
        };
        let merged = merge(&blank, r, &self.observer, self.max_range, now);
        let ghost pre = self.entries@;
        self.entries.push((r.icao.code, merged));
        proof {
            assert(self.entries@.drop_last() =~= pre);
            assert(forall|j: int|
                0 <= j < pre.len() ==> (#[trigger] self.entries@[j]) == pre[j]);
        }
    }

    /// Removes every record whose last update is older than `max_age` ticks
    /// before `now`; every other record stays, unchanged. Removal is
    /// irrevocable: a later report for a removed identifier starts from a
    /// blank record.
    pub fn evict(&mut self, now: u64, max_age: u64)
        requires
            old(self).wf(),
        ensures
            final(self).wf(),
            final(self).observer() == old(self).observer(),
            final(self).max_range() == old(self).max_range(),
            forall|k: u32|
                #[trigger] final(self)@.contains_key(k) <==> (old(self)@.contains_key(k)
                    && fresh_at(old(self)@[k], now, max_age)),
            forall|k: u32|
                final(self)@.contains_key(k) ==> #[trigger] final(self)@[k] == old(self)@[k],
    {
        let n = self.entries.len();
        let mut kept: Vec<(u32, TrackedEntity)> = Vec::new();
        let mut i: usize = 0;
        while i < n
            invariant
                0 <= i <= n,
                n == self.entries@.len(),
                self.wf(),
                self == old(self),
                kept@ == filter_fresh(self.entries@.take(i as int), now, max_age),
            decreases n - i,
        {
            let e = self.entries[i];
            proof {
                assert(self.entries@.take(i + 1).drop_last() =~= self.entries@.take(i as int));
                assert(self.entries@.take(i + 1).last() == self.entries@[i as int]);
            }
            let stale = now > max_age && e.1.last_update < now - max_age;
            if !stale {
                kept.push(e);
            }
            i = i + 1;
        }
        proof {
            assert(self.entries@.take(n as int) =~= self.entries@);
            lemma_filter_fresh(self.entries@, now, max_age);
            assert(forall|j: int|
                0 <= j < kept@.len() ==> entity_wf(
                    (#[trigger] kept@[j]).1,
                    self.observer,
                    self.max_range,
                ) && kept@[j].0 < 0x1000000) by {
                assert(forall|j: int|
                    0 <= j < kept@.len() ==> exists|l: int|
                        0 <= l < self.entries@.len() && self.entries@[l] == #[trigger] kept@[j]);
            }
        }
        self.entries = kept;
    }

    /// A copy of the whole registry, read at a single point: one pair per
    /// tracked identifier, each pair exactly the stored record.
    pub fn snapshot(&self) -> (r: Vec<(u32, TrackedEntity)>)
        requires
            self.wf(),
        ensures
            keys_unique(r@),
            s2m(r@) == self@,
            r@.len() == self@.dom().len(),
            forall|j: int|
                0 <= j < r@.len() ==> self@.contains_key((#[trigger] r@[j]).0) && self@[r@[j].0]
                    == r@[j].1,
    {
        let n = self.entries.len();
        let mut out: Vec<(u32, TrackedEntity)> = Vec::new();
        let mut i: usize = 0;
        while i < n
            invariant
                0 <= i <= n,
                n == self.entries@.len(),
                self.wf(),
                out@ == self.entries@.take(i as int),
            decreases n - i,
        {
            out.push(self.entries[i]);
            proof {
                assert(out@ =~= self.entries@.take(i + 1));
            }
            i = i + 1;
        }
        proof {
            assert(out@ =~= self.entries@);
            lemma_s2m_len(self.entries@);
            assert forall|j: int|
                0 <= j < out@.len() implies self@.contains_key((#[trigger] out@[j]).0)
                && self@[out@[j].0] == out@[j].1 by {
                lemma_s2m_index(self.entries@, j);
            }
        }
        out
    }

    /// Among the records with a defined distance, the one closest to the
    /// observer; `None` exactly when no record has a defined distance. Ties
    /// go to the lowest identifier, a fixed rule chosen so that selection is
    /// deterministic rather than an accident of storage order.
    pub fn nearest(&self) -> (r: Option<(Icao, TrackedEntity)>)
        requires
            self.wf(),
        ensures
            r is None <==> (forall|k: u32|
                #[trigger] self@.contains_key(k) ==> self@[k].distance is None),
            r matches Some((id, e)) ==> {
                &&& id.wf()
                &&& self@.contains_key(id.code)
                &&& self@[id.code] == e
                &&& e.distance is Some
                &&& forall|k: u32|
                    self@.contains_key(k) && (#[trigger] self@[k].distance) is Some ==> {
                        ||| e.distance->0 < self@[k].distance->0
                        ||| (e.distance->0 == self@[k].distance->0 && id.code <= k)
                    }
            },
    {
        let n = self.entries.len();
        let mut best: Option<(u32, TrackedEntity)> = None;
        let ghost mut best_idx: int = 0;
        let mut i: usize = 0;
        while i < n
            invariant
                0 <= i <= n,
                n == self.entries@.len(),
                self.wf(),
                best is None ==> forall|j: int|
                    0 <= j < i ==> (#[trigger] self.entries@[j]).1.distance is None,
                best matches Some((bk, be)) ==> {
                    &&& 0 <= best_idx < i
                    &&& self.entries@[best_idx] == (bk, be)
                    &&& be.distance is Some
                    &&& forall|j: int|
                        0 <= j < i && (#[trigger] self.entries@[j]).1.distance is Some ==> {
                            ||| be.distance->0 < self.entries@[j].1.distance->0
                            ||| (be.distance->0 == self.entries@[j].1.distance->0 && bk
                                <= self.entries@[j].0)
                        }
                },
            decreases n - i,
        {
            let e = self.entries[i];
            if let Some(d) = e.1.distance {
                let replace = match &best {
                    None => true,
                    Some((bk, be)) => {
                        let bd = be.distance.unwrap();
                        d < bd || (d == bd && e.0 < *bk)
                    },
                };
                if replace {
                    best = Some(e);
                    proof {
                        best_idx = i as int;
                    }
                }
            }
            i = i + 1;
        }
        proof {
            if best is Some {
                lemma_s2m_index(self.entries@, best_idx);
                let (bk, be) = best->0;
                assert forall|k: u32|
                    self@.contains_key(k) && (#[trigger] self@[k].distance) is Some implies {
                    ||| be.distance->0 < self@[k].distance->0
                    ||| (be.distance->0 == self@[k].distance->0 && bk <= k)
                } by {
                    lemma_s2m_contains(self.entries@, k);
                    let j = choose|j: int|
                        0 <= j < self.entries@.len() && (#[trigger] self.entries@[j]).0 == k;
                    lemma_s2m_index(self.entries@, j);
                }
            } else {
                assert forall|k: u32| #[trigger]
                    self@.contains_key(k) implies self@[k].distance is None by {
                    lemma_s2m_contains(self.entries@, k);
                    let j = choose|j: int|
                        0 <= j < self.entries@.len() && (#[trigger] self.entries@[j]).0 == k;
                    lemma_s2m_index(self.entries@, j);
                }
            }
            if best is None {
                assert(forall|k: u32|
                    #[trigger] self@.contains_key(k) ==> self@[k].distance is None);
            } else {
                let (bk, be) = best->0;
                assert(self@.contains_key(bk) && self@[bk].distance is Some);
            }
        }
        match best {
            Some((k, e)) => Some((Icao { code: k }, e)),
            None => None,
        }
    }

    /// Among the records with a defined distance, the one farthest from the
    /// observer; `None` exactly when no record has a defined distance. Ties
    /// go to the lowest identifier, as for the nearest query.
    pub fn farthest(&self) -> (r: Option<(Icao, TrackedEntity)>)
        requires
            self.wf(),
        ensures
            r is None <==> (forall|k: u32|
                #[trigger] self@.contains_key(k) ==> self@[k].distance is None),
            r matches Some((id, e)) ==> {
                &&& id.wf()
                &&& self@.contains_key(id.code)
                &&& self@[id.code] == e
                &&& e.distance is Some
                &&& forall|k: u32|
                    self@.contains_key(k) && (#[trigger] self@[k].distance) is Some ==> {
                        ||| e.distance->0 > self@[k].distance->0
                        ||| (e.distance->0 == self@[k].distance->0 && id.code <= k)
                    }
            },
    {
        let n = self.entries.len();
        let mut best: Option<(u32, TrackedEntity)> = None;
        let ghost mut best_idx: int = 0;
        let mut i: usize = 0;
        while i < n
            invariant
                0 <= i <= n,
                n == self.entries@.len(),
                self.wf(),
                best is None ==> forall|j: int|
                    0 <= j < i ==> (#[trigger] self.entries@[j]).1.distance is None,
                best matches Some((bk, be)) ==> {
                    &&& 0 <= best_idx < i
                    &&& self.entries@[best_idx] == (bk, be)
                    &&& be.distance is Some
                    &&& forall|j: int|
                        0 <= j < i && (#[trigger] self.entries@[j]).1.distance is Some ==> {
                            ||| be.distance->0 > self.entries@[j].1.distance->0
                            ||| (be.distance->0 == self.entries@[j].1.distance->0 && bk
                                <= self.entries@[j].0)
                        }
                },
            decreases n - i,
        {
            let e = self.entries[i];
            if let Some(d) = e.1.distance {
                let replace = match &best {
                    None => true,
                    Some((bk, be)) => {
                        let bd = be.distance.unwrap();
                        d > bd || (d == bd && e.0 < *bk)
                    },
                };
                if replace {
                    best = Some(e);
                    proof {
                        best_idx = i as int;
                    }
                }
            }
            i = i + 1;
        }
        proof {
            if best is Some {
                lemma_s2m_index(self.entries@, best_idx);
                let (bk, be) = best->0;
                assert forall|k: u32|
                    self@.contains_key(k) && (#[trigger] self@[k].distance) is Some implies {
                    ||| be.distance->0 > self@[k].distance->0
                    ||| (be.distance->0 == self@[k].distance->0 && bk <= k)
                } by {
                    lemma_s2m_contains(self.entries@, k);
                    let j = choose|j: int|
                        0 <= j < self.entries@.len() && (#[trigger] self.entries@[j]).0 == k;
                    lemma_s2m_index(self.entries@, j);
                }
            } else {
                assert forall|k: u32| #[trigger]
                    self@.contains_key(k) implies self@[k].distance is None by {
                    lemma_s2m_contains(self.entries@, k);
                    let j = choose|j: int|
                        0 <= j < self.entries@.len() && (#[trigger] self.entries@[j]).0 == k;
                    lemma_s2m_index(self.entries@, j);
                }
            }
            if best is None {
                assert(forall|k: u32|
                    #[trigger] self@.contains_key(k) ==> self@[k].distance is None);
            } else {
                let (bk, be) = best->0;
                assert(self@.contains_key(bk) && self@[bk].distance is Some);
            }
        }
        match best {
            Some((k, e)) => Some((Icao { code: k }, e)),
            None => None,
        }
    }
}

/// Why a lookup by identifier text returned no record.
#[derive(Clone, Copy, PartialEq, Eq, Structural, Debug)]
pub enum LookupError {
    /// The given text is not a well-formed identifier.
    InvalidIdentifier,
    /// The identifier is well formed but nothing is tracked under it.
    NotFound,
}

impl Registry {
    /// Looks a record up by the textual form of its identifier. Malformed
    /// text is a distinct, reported error, never a panic; a well-formed but
    /// absent identifier is reported as not found.
    pub fn by_id(&self, id_text: &str) -> (r: Result<TrackedEntity, LookupError>)
        requires
            self.wf(),
        ensures
            !valid_icao_str(id_text@) ==> r == Err::<TrackedEntity, _>(
                LookupError::InvalidIdentifier,
            ),
            valid_icao_str(id_text@) && !self@.contains_key(icao_of(id_text@) as u32) ==> r
                == Err::<TrackedEntity, _>(LookupError::NotFound),
            valid_icao_str(id_text@) && self@.contains_key(icao_of(id_text@) as u32) ==> r
                == Ok::<_, LookupError>(self@[icao_of(id_text@) as u32]),
    {
        match Icao::parse(id_text) {
            None => Err(LookupError::InvalidIdentifier),
            Some(id) => match self.get(id) {
                None => Err(LookupError::NotFound),
                Some(e) => Ok(e),
            },
        }
    }
}

} // verus!
