//! Association maps with verified lookup and insertion: the forward map from
//! process ids and string-keyed maps for inversion and grouping.

use vstd::prelude::*;
use vstd::pervasive::VecAdditionalExecFns;
use crate::records::{ProcInfo, ProcInfoV};
use crate::strutil::str_eq;

verus! {

// ---------------------------------------------------------------------------
// The abstraction: a sequence of pairs read as a map
// ---------------------------------------------------------------------------

/// The map a sequence of pairs denotes; a later pair overrides an earlier one
/// with the same key.
pub open spec fn assoc_map_of<K, T>(s: Seq<(K, T)>) -> Map<K, T>
    decreases s.len(),
{
    if s.len() == 0 {
        Map::empty()
    } else {
        assoc_map_of(s.drop_last()).insert(s.last().0, s.last().1)
    }
}

/// The keys of a sequence of pairs, in order.
pub open spec fn assoc_keys<K, T>(s: Seq<(K, T)>) -> Seq<K> {
    Seq::new(s.len(), |i: int| s[i].0)
}

/// A duplicate-free sequence stays duplicate-free with its last element gone.
proof fn lemma_nodup_drop_last<A>(s: Seq<A>)
    requires
        s.len() > 0,
        s.no_duplicates(),
    ensures
        s.drop_last().no_duplicates(),
{
    let t = s.drop_last();
    assert forall|a: int, b: int|
        0 <= a < t.len() && 0 <= b < t.len() && a != b implies t[a] != t[b] by {
        assert(t[a] == s[a]);
        assert(t[b] == s[b]);
    }
}

/// The keys of a shortened sequence of pairs.
proof fn lemma_assoc_keys_drop_last<K, T>(s: Seq<(K, T)>)
    requires
        s.len() > 0,
    ensures
        assoc_keys(s.drop_last()) == assoc_keys(s).drop_last(),
{
    assert(assoc_keys(s.drop_last()) =~= assoc_keys(s).drop_last());
}

/// The denoted map's domain is exactly the set of keys.
pub proof fn lemma_assoc_dom<K, T>(s: Seq<(K, T)>)
    ensures
        assoc_map_of(s).dom() == assoc_keys(s).to_set(),
    decreases s.len(),
{
    if s.len() == 0 {
        assert(assoc_map_of(s).dom() =~= assoc_keys(s).to_set());
    } else {
        let t = s.drop_last();
        lemma_assoc_dom(t);
        assert forall|k: K|
            assoc_map_of(s).dom().contains(k) implies assoc_keys(s).contains(k) by {
            if k == s.last().0 {
                assert(assoc_keys(s)[s.len() - 1] == k);
            } else {
                assert(assoc_map_of(t).dom().contains(k));
                assert(assoc_keys(t).to_set().contains(k));
                let i = choose|i: int| 0 <= i < t.len() && assoc_keys(t)[i] == k;
                assert(assoc_keys(s)[i] == k);
            }
        }
        assert forall|k: K|
            assoc_keys(s).contains(k) implies assoc_map_of(s).dom().contains(k) by {
            let i = choose|i: int| 0 <= i < s.len() && assoc_keys(s)[i] == k;
            if i == s.len() - 1 {
                assert(k == s.last().0);
            } else {
                assert(assoc_keys(t)[i] == k);
                assert(assoc_keys(t).to_set().contains(k));
                assert(assoc_map_of(t).dom().contains(k));
            }
        }
        assert(assoc_map_of(s).dom() =~= assoc_keys(s).to_set());
    }
}

/// With duplicate-free keys, the denoted map sends each key to its value.
pub proof fn lemma_assoc_get<K, T>(s: Seq<(K, T)>, i: int)
    requires
        assoc_keys(s).no_duplicates(),
        0 <= i < s.len(),
    ensures
        assoc_map_of(s).dom().contains(s[i].0),
        assoc_map_of(s)[s[i].0] == s[i].1,
    decreases s.len(),
{
    if i < s.len() - 1 {
        let t = s.drop_last();
        lemma_assoc_keys_drop_last(s);
        lemma_nodup_drop_last(assoc_keys(s));
        lemma_assoc_get(t, i);
        assert(t[i] == s[i]);
        assert(assoc_keys(s)[i] != assoc_keys(s)[s.len() - 1]);
        assert(s[i].0 != s.last().0);
    }
}

/// Updating the value at one position updates the denoted map at its key.
pub proof fn lemma_assoc_update<K, T>(s: Seq<(K, T)>, j: int, v: T)
    requires
        assoc_keys(s).no_duplicates(),
        0 <= j < s.len(),
    ensures
        assoc_map_of(s.update(j, (s[j].0, v))) == assoc_map_of(s).insert(s[j].0, v),
        assoc_keys(s.update(j, (s[j].0, v))) == assoc_keys(s),
    decreases s.len(),
{
    let u = s.update(j, (s[j].0, v));
    assert(assoc_keys(u) =~= assoc_keys(s));
    if j == s.len() - 1 {
        assert(u.drop_last() =~= s.drop_last());
        assert(u.last() == (s[j].0, v));
        assert(assoc_map_of(u) =~= assoc_map_of(s).insert(s[j].0, v));
    } else {
        let t = s.drop_last();
        lemma_assoc_keys_drop_last(s);
        lemma_nodup_drop_last(assoc_keys(s));
        lemma_assoc_update(t, j, v);
        assert(u.drop_last() =~= t.update(j, (t[j].0, v)));
        assert(u.last() == s.last());
        // the touched key differs from the last key, so the two inserts commute
        assert(assoc_keys(s)[j] != assoc_keys(s)[s.len() - 1]);
        assert(s[j].0 != s.last().0);
        assert(assoc_map_of(u) =~= assoc_map_of(s).insert(s[j].0, v));
    }
}

/// Appending a pair inserts its key.
pub proof fn lemma_assoc_push<K, T>(s: Seq<(K, T)>, k: K, v: T)
    ensures
        assoc_map_of(s.push((k, v))) == assoc_map_of(s).insert(k, v),
        assoc_keys(s.push((k, v))) == assoc_keys(s).push(k),
{
    assert(s.push((k, v)).drop_last() =~= s);
    assert(assoc_keys(s.push((k, v))) =~= assoc_keys(s).push(k));
}

// ---------------------------------------------------------------------------
// The forward map: process id -> record
// ---------------------------------------------------------------------------

/// The forward map of the index, keyed by process id.
pub struct PidMap {
    entries: Vec<(u64, ProcInfo)>,
}

impl View for PidMap {
    type V = Seq<(u64, ProcInfoV)>;

    closed spec fn view(&self) -> Seq<(u64, ProcInfoV)> {
        Seq::new(self.entries@.len(), |i: int| (self.entries@[i].0, self.entries@[i].1@))
    }
}

impl PidMap {
    /// Well-formed: process ids are unique and every record is well-formed.
    pub open spec fn wf(self) -> bool {
        &&& assoc_keys(self@).no_duplicates()
        &&& forall|i: int| 0 <= i < self@.len() ==> (#[trigger] self@[i].1).wf()
    }

    /// The map this vector of pairs denotes.
    pub open spec fn as_map(self) -> Map<u64, ProcInfoV> {
        assoc_map_of(self@)
    }

    pub fn new() -> (r: Self)
        ensures
            r.wf(),
            r@ == Seq::<(u64, ProcInfoV)>::empty(),
            r.as_map() == Map::<u64, ProcInfoV>::empty(),
    {
        let r = PidMap { entries: Vec::new() };
        proof {
            assert(r@ =~= Seq::<(u64, ProcInfoV)>::empty());
        }
        r
    }

    pub fn len(&self) -> (n: usize)
        ensures
            n == self@.len(),
    {
        self.entries.len()
    }

    pub fn index_pair(&self, i: usize) -> (r: (u64, &ProcInfo))
        requires
            i < self@.len(),
        ensures
            r.0 == self@[i as int].0,
            r.1@ == self@[i as int].1,
    {
        let p = &self.entries[i];
        (p.0, &p.1)
    }

    fn find_key(&self, pid: u64) -> (r: Option<usize>)
        ensures
            match r {
                Some(j) => j < self@.len() && self@[j as int].0 == pid,
                None => forall|i: int| 0 <= i < self@.len() ==> self@[i].0 != pid,
            },
    {
        let n = self.entries.len();
        let mut i: usize = 0;
        while i < n
            invariant
                i <= n,
                n == self@.len(),
                forall|j: int| 0 <= j < i ==> self@[j].0 != pid,
            decreases n - i,
        {
            if self.entries[i].0 == pid {
                return Some(i);
            }
            i += 1;
        }
        None
    }

    /// Look a process id up in the denoted map.
    pub fn get(&self, pid: u64) -> (r: Option<&ProcInfo>)
        requires
            self.wf(),
        ensures
            match r {
                Some(p) => self.as_map().dom().contains(pid) && p@ == self.as_map()[pid],
                None => !self.as_map().dom().contains(pid),
            },
    {
        proof {
            lemma_assoc_dom(self@);
        }
        match self.find_key(pid) {
            Some(j) => {
                proof {
                    lemma_assoc_get(self@, j as int);
                }
                Some(&self.entries[j].1)
            },
            None => {
                proof {
                    if assoc_keys(self@).contains(pid) {
                        let i = choose|i: int|
                            0 <= i < self@.len() && assoc_keys(self@)[i] == pid;
                        assert(self@[i].0 == pid);
                    }
                }
                None
            },
        }
    }

    /// Insert a record, replacing any record with the same process id.
    pub fn insert(&mut self, pid: u64, info: ProcInfo)
        requires
            old(self).wf(),
            info.wf(),
        ensures
            final(self).wf(),
            final(self).as_map() == old(self).as_map().insert(pid, info@),
    {
        let ghost iv = info@;
        match self.find_key(pid) {
            Some(j) => {
                let ghost pre = self@;
                self.entries.set(j, (pid, info));
                proof {
                    assert(self@ =~= pre.update(j as int, (pre[j as int].0, iv)));
                    lemma_assoc_update(pre, j as int, iv);
                }
            },
            None => {
                let ghost pre = self@;
                self.entries.push((pid, info));
                proof {
                    assert(self@ =~= pre.push((pid, iv)));
                    lemma_assoc_push(pre, pid, iv);
                    assert(assoc_keys(self@).no_duplicates()) by {
                        assert(assoc_keys(self@) =~= assoc_keys(pre).push(pid));
                        assert(forall|i: int|
                            0 <= i < pre.len() ==> #[trigger] assoc_keys(pre)[i] == pre[i].0);
                    }
                }
            },
        }
    }
}

// ---------------------------------------------------------------------------
// String-keyed maps: inversion and grouping
// ---------------------------------------------------------------------------

/// A map keyed by strings, holding values of any viewable type.
pub struct StrMap<V> {
    entries: Vec<(String, V)>,
}

impl<V: View> View for StrMap<V> {
    type V = Seq<(Seq<char>, <V as View>::V)>;

    closed spec fn view(&self) -> Seq<(Seq<char>, <V as View>::V)> {
        Seq::new(self.entries@.len(), |i: int| (self.entries@[i].0@, self.entries@[i].1@))
    }
}

impl<V: View> StrMap<V> {
    /// Well-formed: keys are unique.
    pub open spec fn wf(self) -> bool {
        assoc_keys(self@).no_duplicates()
    }

    /// The map this vector of pairs denotes.
    pub open spec fn as_map(self) -> Map<Seq<char>, <V as View>::V> {
        assoc_map_of(self@)
    }

    pub fn new() -> (r: Self)
        ensures
            r.wf(),
            r@ == Seq::<(Seq<char>, <V as View>::V)>::empty(),
            r.as_map() == Map::<Seq<char>, <V as View>::V>::empty(),
    {
        let r = StrMap { entries: Vec::new() };
        proof {
            assert(r@ =~= Seq::<(Seq<char>, <V as View>::V)>::empty());
        }
        r
    }

    pub fn len(&self) -> (n: usize)
        ensures
            n == self@.len(),
    {
        self.entries.len()
    }

    pub fn index_pair(&self, i: usize) -> (r: (&String, &V))
        requires
            i < self@.len(),
        ensures
            r.0@ == self@[i as int].0,
            r.1@ == self@[i as int].1,
    {
        let p = &self.entries[i];
        (&p.0, &p.1)
    }

    fn find_key(&self, key: &str) -> (r: Option<usize>)
        ensures
            match r {
                Some(j) => j < self@.len() && self@[j as int].0 == key@,
                None => forall|i: int| 0 <= i < self@.len() ==> self@[i].0 != key@,
            },
    {
        let n = self.entries.len();
        let mut i: usize = 0;
        while i < n
            invariant
                i <= n,
                n == self@.len(),
                forall|j: int| 0 <= j < i ==> self@[j].0 != key@,
            decreases n - i,
        {
            if str_eq(self.entries[i].0.as_str(), key) {
                proof {
                    assert(self@[i as int].0 == key@);
                }
                return Some(i);
            }
            i += 1;
        }
        None
    }

    /// Look a key up in the denoted map.
    pub fn get(&self, key: &str) -> (r: Option<&V>)
        requires
            self.wf(),
        ensures
            match r {
                Some(v) => self.as_map().dom().contains(key@) && v@ == self.as_map()[key@],
                None => !self.as_map().dom().contains(key@),
            },
    {
        proof {
            lemma_assoc_dom(self@);
        }
        match self.find_key(key) {
            Some(j) => {
                proof {
                    lemma_assoc_get(self@, j as int);
                }
                Some(&self.entries[j].1)
            },
            None => {
                proof {
                    if assoc_keys(self@).contains(key@) {
                        let i = choose|i: int|
                            0 <= i < self@.len() && assoc_keys(self@)[i] == key@;
                        assert(self@[i].0 == key@);
                    }
                }
                None
            },
        }
    }

    /// Insert a value, replacing any value under the same key.
    pub fn insert(&mut self, key: &str, v: V)
        requires
            old(self).wf(),
        ensures
            final(self).wf(),
            final(self).as_map() == old(self).as_map().insert(key@, v@),
            forall|i: int|
                0 <= i < final(self)@.len() ==> ((#[trigger] final(self)@[i]).1 == v@
                    || old(self)@.contains(final(self)@[i])),
            old(self).as_map().dom().contains(key@) ==> exists|j: int|
                0 <= j < old(self)@.len() && (#[trigger] old(self)@[j]).0 == key@
                    && final(self)@ == old(self)@.update(j, (key@, v@)),
            !old(self).as_map().dom().contains(key@) ==> final(self)@ == old(self)@.push(
                (key@, v@),
            ),
    {
        let ghost vv = v@;
        proof {
            lemma_assoc_dom(self@);
        }
        match self.find_key(key) {
            Some(j) => {
                let ghost pre = self@;
                proof {
                    assert(assoc_keys(pre)[j as int] == key@);
                    assert(assoc_keys(pre).contains(key@));
                }
                self.entries.set(j, (key.to_owned(), v));
                proof {
                    assert(self@ =~= pre.update(j as int, (pre[j as int].0, vv)));
                    lemma_assoc_update(pre, j as int, vv);
                    assert(pre[j as int].0 == key@);
                    assert(self@ == pre.update(j as int, (key@, vv)));
                }
            },
            None => {
                let ghost pre = self@;
                proof {
                    if assoc_keys(pre).contains(key@) {
                        let i = choose|i: int|
                            0 <= i < pre.len() && assoc_keys(pre)[i] == key@;
                        assert(pre[i].0 == key@);
                    }
                }
                self.entries.push((key.to_owned(), v));
                proof {
                    assert(self@ =~= pre.push((key@, vv)));
                    lemma_assoc_push(pre, key@, vv);
                    assert(assoc_keys(self@).no_duplicates()) by {
                        assert(assoc_keys(self@) =~= assoc_keys(pre).push(key@));
                        assert(forall|i: int|
                            0 <= i < pre.len() ==> #[trigger] assoc_keys(pre)[i] == pre[i].0);
                    }
                }
            },
        }
    }
}

} // verus!
