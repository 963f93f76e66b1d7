//! Duplicate-free collections for file identifiers and process ids, with
//! set-valued abstractions.

use vstd::prelude::*;
use crate::strutil::{seq_views, str_eq};

verus! {

/// A set of file identifiers, stored as a duplicate-free vector of strings.
#[derive(Debug)]
pub struct FileSet {
    items: Vec<String>,
}

impl View for FileSet {
    type V = Seq<Seq<char>>;

    closed spec fn view(&self) -> Seq<Seq<char>> {
        seq_views(self.items@)
    }
}

impl FileSet {
    /// Well-formed: no identifier occurs twice.
    pub open spec fn wf(self) -> bool {
        self@.no_duplicates()
    }

    /// The set of identifiers held.
    pub open spec fn set_view(self) -> Set<Seq<char>> {
        self@.to_set()
    }

    pub fn new() -> (r: Self)
        ensures
            r.wf(),
            r@ == Seq::<Seq<char>>::empty(),
    {
        let r = FileSet { items: Vec::new() };
        proof {
            assert(r@ =~= Seq::<Seq<char>>::empty());
        }
        r
    }

    pub fn len(&self) -> (n: usize)
        ensures
            n == self@.len(),
    {
        self.items.len()
    }

    pub fn index(&self, i: usize) -> (r: &String)
        requires
            i < self@.len(),
        ensures
            r@ == self@[i as int],
    {
        &self.items[i]
    }

    pub fn contains(&self, s: &str) -> (r: bool)
        ensures
            r == self@.contains(s@),
    {
        let n = self.items.len();
        let mut i: usize = 0;
        while i < n
            invariant
                i <= n,
                n == self@.len(),
                forall|j: int| 0 <= j < i ==> self@[j] != s@,
            decreases n - i,
        {
            if str_eq(self.items[i].as_str(), s) {
                proof {
                    assert(self@[i as int] == s@);
                }
                return true;
            }
            i += 1;
        }
        false
    }

    /// Add an identifier; a repeated identifier leaves the set unchanged.
    pub fn insert(&mut self, s: String)
        requires
            old(self).wf(),
        ensures
            final(self).wf(),
            final(self)@ == if old(self)@.contains(s@) {
                old(self)@
            } else {
                old(self)@.push(s@)
            },
    {
        let ghost sv = s@;
        if !self.contains(s.as_str()) {
            let ghost pre = self@;
            self.items.push(s);
            proof {
                assert(self@ =~= pre.push(sv));
                assert forall|i: int, j: int|
                    0 <= i < self@.len() && 0 <= j < self@.len() && i != j implies self@[i]
                    != self@[j] by {
                    if i < pre.len() && j < pre.len() {
                        assert(pre[i] != pre[j]);
                    }
                }
            }
        }
    }

    /// Add every identifier of another set.
    pub fn union_with(&mut self, other: &FileSet)
        requires
            old(self).wf(),
        ensures
            final(self).wf(),
            final(self).set_view() == old(self).set_view().union(other.set_view()),
    {
        let ghost base = self.set_view();
        let n = other.len();
        let mut i: usize = 0;
        proof {
            assert(other@.subrange(0, 0) =~= Seq::<Seq<char>>::empty());
            assert(base.union(other@.subrange(0, 0).to_set()) =~= base) by {
                if other@.subrange(0, 0).to_set().len() > 0 {
                    let x = other@.subrange(0, 0).to_set().choose();
                    assert(other@.subrange(0, 0).to_set().contains(x));
                }
            }
        }
        while i < n
            invariant
                i <= n,
                n == other@.len(),
                self.wf(),
                base == old(self).set_view(),
                self.set_view() == base.union(other@.subrange(0, i as int).to_set()),
            decreases n - i,
        {
            let ghost pre = other@.subrange(0, i as int);
            let ghost spre = self@;
            let s = other.index(i).clone();
            proof {
                assert(s@ == other@[i as int]);
            }
            self.insert(s);
            proof {
                let ext = other@.subrange(0, i + 1);
                assert(ext =~= pre + seq![other@[i as int]]);
                Seq::<Seq<char>>::lemma_to_set_insert_commutes(pre, other@[i as int]);
                if spre.contains(other@[i as int]) {
                    assert(self.set_view() =~= base.union(ext.to_set()));
                } else {
                    assert(self@ =~= spre + seq![other@[i as int]]);
                    Seq::<Seq<char>>::lemma_to_set_insert_commutes(spre, other@[i as int]);
                    assert(self.set_view() =~= base.union(ext.to_set()));
                }
            }
            i += 1;
        }
        proof {
            assert(other@.subrange(0, n as int) =~= other@);
        }
    }

    /// Collect a vector of identifiers into a set.
    pub fn from_vec(v: &Vec<String>) -> (r: Self)
        ensures
            r.wf(),
            r.set_view() == seq_views(v@).to_set(),
    {
        let ghost all = seq_views(v@);
        let mut r = FileSet::new();
        let n = v.len();
        let mut i: usize = 0;
        proof {
            assert(r.set_view() =~= all.subrange(0, 0).to_set()) by {
                assert(all.subrange(0, 0) =~= Seq::<Seq<char>>::empty());
                if all.subrange(0, 0).to_set().len() > 0 {
                    let x = all.subrange(0, 0).to_set().choose();
                    assert(all.subrange(0, 0).to_set().contains(x));
                }
            }
        }
        while i < n
            invariant
                i <= n,
                n == v@.len(),
                all == seq_views(v@),
                r.wf(),
                r.set_view() == all.subrange(0, i as int).to_set(),
            decreases n - i,
        {
            let ghost pre = all.subrange(0, i as int);
            let ghost rpre = r@;
            let s = v[i].clone();
            proof {
                assert(s@ == all[i as int]);
            }
            r.insert(s);
            proof {
                let ext = all.subrange(0, i + 1);
                assert(ext =~= pre + seq![all[i as int]]);
                Seq::<Seq<char>>::lemma_to_set_insert_commutes(pre, all[i as int]);
                if rpre.contains(all[i as int]) {
                    assert(r.set_view() =~= pre.to_set().insert(all[i as int]));
                } else {
                    assert(r@ =~= rpre + seq![all[i as int]]);
                    Seq::<Seq<char>>::lemma_to_set_insert_commutes(rpre, all[i as int]);
                }
            }
            i += 1;
        }
        proof {
            assert(all.subrange(0, n as int) =~= all);
        }
        r
    }
}

impl Clone for FileSet {
    fn clone(&self) -> (r: Self)
        ensures
            r@ == self@,
    {
        let r = FileSet { items: self.items.clone() };
        proof {
            assert forall|i: int| 0 <= i < r.items@.len() implies r.items@[i]@
                == self.items@[i]@ by {
                assert(cloned::<String>(self.items@[i], r.items@[i]));
            }
            assert(r@ =~= self@);
        }
        r
    }
}

/// A set of process ids, stored as a duplicate-free vector.
#[derive(Debug)]
pub struct PidSet {
    items: Vec<u64>,
}

impl View for PidSet {
    type V = Seq<u64>;

    closed spec fn view(&self) -> Seq<u64> {
        self.items@
    }
}

impl PidSet {
    /// Well-formed: no process id occurs twice.
    pub open spec fn wf(self) -> bool {
        self@.no_duplicates()
    }

    /// The set of process ids held.
    pub open spec fn set_view(self) -> Set<u64> {
        self@.to_set()
    }

    pub fn new() -> (r: Self)
        ensures
            r.wf(),
            r@ == Seq::<u64>::empty(),
    {
        let r = PidSet { items: Vec::new() };
        proof {
            assert(r@ =~= Seq::<u64>::empty());
        }
        r
    }

    /// The one-element set.
    pub fn singleton(pid: u64) -> (r: Self)
        ensures
            r.wf(),
            r@ == seq![pid],
    {
        let mut items: Vec<u64> = Vec::new();
        items.push(pid);
        let r = PidSet { items };
        proof {
            assert(r@ =~= seq![pid]);
        }
        r
    }

    pub fn len(&self) -> (n: usize)
        ensures
            n == self@.len(),
    {
        self.items.len()
    }

    pub fn index(&self, i: usize) -> (r: u64)
        requires
            i < self@.len(),
        ensures
            r == self@[i as int],
    {
        self.items[i]
    }

    pub fn contains(&self, pid: u64) -> (r: bool)
        ensures
            r == self@.contains(pid),
    {
        let n = self.items.len();
        let mut i: usize = 0;
        while i < n
            invariant
                i <= n,
                n == self@.len(),
                forall|j: int| 0 <= j < i ==> self@[j] != pid,
            decreases n - i,
        {
            if self.items[i] == pid {
                proof {
                    assert(self@[i as int] == pid);
                }
                return true;
            }
            i += 1;
        }
        false
    }

    /// Add a process id; a repeated id leaves the set unchanged.
    pub fn insert(&mut self, pid: u64)
        requires
            old(self).wf(),
        ensures
            final(self).wf(),
            final(self)@ == if old(self)@.contains(pid) {
                old(self)@
            } else {
                old(self)@.push(pid)
            },
    {
        if !self.contains(pid) {
            let ghost pre = self@;
            self.items.push(pid);
            proof {
                assert(self@ =~= pre.push(pid));
                assert forall|i: int, j: int|
                    0 <= i < self@.len() && 0 <= j < self@.len() && i != j implies self@[i]
                    != self@[j] by {
                    if i < pre.len() && j < pre.len() {
                        assert(pre[i] != pre[j]);
                    }
                }
            }
        }
    }
}

impl Clone for PidSet {
    fn clone(&self) -> (r: Self)
        ensures
            r@ == self@,
    {
        let r = PidSet { items: self.items.clone() };
        proof {
            assert forall|i: int| 0 <= i < r.items@.len() implies r.items@[i]
                == self.items@[i] by {
                assert(cloned::<u64>(self.items@[i], r.items@[i]));
            }
            assert(r@ =~= self@);
        }
        r
    }
}

} // verus!
