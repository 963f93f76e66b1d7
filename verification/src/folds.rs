//! Presentation folds over the forward map: collapse records into
//! name-keyed or pid-keyed summaries while preserving the count of
//! (process, file) pairs.

use vstd::prelude::*;
use crate::data::{pairs_count, Data};
use crate::maps::{assoc_keys, lemma_assoc_dom, lemma_assoc_get, StrMap};
use crate::records::{opt_str_view, ProcInfoV};
use crate::sets::FileSet;
use crate::strutil::{dec_str, u64_to_string};

verus! {

/// The key a record is grouped under: its name, or its pid's decimal string
/// when no name could be read.
pub open spec fn group_key(pid: u64, info: ProcInfoV) -> Seq<char> {
    match info.name {
        Some(n) => n,
        None => dec_str(pid as int),
    }
}

// ---------------------------------------------------------------------------
// Grouping into pid lists and file sets
// ---------------------------------------------------------------------------

/// Abstract value of a [`NameGroup`].
pub ghost struct NameGroupV {
    pub pids: Seq<u64>,
    pub files: Seq<Seq<char>>,
}

/// One group of the name-keyed summary: the pids grouped under the key and
/// the union of their file sets.
pub struct NameGroup {
    pub pids: Vec<u64>,
    pub files: FileSet,
}

impl View for NameGroup {
    type V = NameGroupV;

    open spec fn view(&self) -> NameGroupV {
        NameGroupV { pids: self.pids@, files: self.files@ }
    }
}

impl Clone for NameGroup {
    fn clone(&self) -> (r: Self)
        ensures
            r@ == self@,
    {
        let pids = self.pids.clone();
        proof {
            assert forall|i: int| 0 <= i < pids@.len() implies pids@[i] == self.pids@[i] by {
                assert(cloned::<u64>(self.pids@[i], pids@[i]));
            }
            assert(pids@ =~= self.pids@);
        }
        NameGroup { pids, files: self.files.clone() }
    }
}

/// The name-keyed grouping of a forward sequence: each record appends its
/// pid and contributes its files to the group of its key.
pub open spec fn group_fold_spec(s: Seq<(u64, ProcInfoV)>) -> Map<
    Seq<char>,
    (Seq<u64>, Set<Seq<char>>),
>
    decreases s.len(),
{
    if s.len() == 0 {
        Map::empty()
    } else {
        let m = group_fold_spec(s.drop_last());
        let pid = s.last().0;
        let info = s.last().1;
        let k = group_key(pid, info);
        if m.dom().contains(k) {
            m.insert(k, (m[k].0.push(pid), m[k].1.union(info.files.to_set())))
        } else {
            m.insert(k, (seq![pid], info.files.to_set()))
        }
    }
}

/// Whether a concrete name-keyed map realizes a grouping: same keys, same
/// pid lists, same file sets.
pub open spec fn models_groups(
    m: Map<Seq<char>, NameGroupV>,
    gm: Map<Seq<char>, (Seq<u64>, Set<Seq<char>>)>,
) -> bool {
    &&& m.dom() == gm.dom()
    &&& forall|k: Seq<char>| #[trigger]
        m.dom().contains(k) ==> m[k].pids == gm[k].0 && m[k].files.to_set() == gm[k].1
}

/// Every group's file set is duplicate-free.
pub open spec fn ng_values_wf(s: Seq<(Seq<char>, NameGroupV)>) -> bool {
    forall|i: int| 0 <= i < s.len() ==> (#[trigger] s[i].1).files.no_duplicates()
}

impl Data {
    /// Collapse the forward map into a name-keyed summary: for each display
    /// name (or bare pid, for a nameless record), the pids grouped under it
    /// and the union of their file sets.
    pub fn proc_to_files(&self) -> (r: StrMap<NameGroup>)
        requires
            self.wf(),
        ensures
            r.wf(),
            ng_values_wf(r@),
            models_groups(r.as_map(), group_fold_spec(self.forward_seq())),
    {
        let ghost fwd = self.forward_seq();
        let map = self.pid_to_files();
        let mut r: StrMap<NameGroup> = StrMap::new();
        let n = map.len();
        let mut i: usize = 0;
        proof {
            assert(fwd.subrange(0, 0) =~= Seq::<(u64, ProcInfoV)>::empty());
            assert(r.as_map().dom() =~= group_fold_spec(fwd.subrange(0, 0)).dom());
        }
        while i < n
            invariant
                i <= n,
                n == fwd.len(),
                fwd == map@,
                map.wf(),
                forall|j: int| 0 <= j < fwd.len() ==> (#[trigger] fwd[j].1).wf(),
                r.wf(),
                ng_values_wf(r@),
                models_groups(r.as_map(), group_fold_spec(fwd.subrange(0, i as int))),
            decreases n - i,
        {
            let ghost gmpre = group_fold_spec(fwd.subrange(0, i as int));
            proof {
                assert(fwd.subrange(0, i + 1).drop_last() =~= fwd.subrange(0, i as int));
                assert(fwd.subrange(0, i + 1).last() == fwd[i as int]);
            }
            let pair = map.index_pair(i);
            let pid = pair.0;
            let info = pair.1;
            let key: String = match &info.name {
                Some(nm) => nm.clone(),
                None => u64_to_string(pid),
            };
            proof {
                assert(key@ == group_key(fwd[i as int].0, fwd[i as int].1));
            }
            let ghost mpre = r.as_map();
            let ng = match r.get(key.as_str()) {
                Some(g) => {
                    let mut g2 = g.clone();
                    proof {
                        // this group's file set is duplicate-free
                        lemma_assoc_dom(r@);
                        if assoc_keys(r@).contains(key@) {
                            let j = choose|j: int|
                                0 <= j < r@.len() && assoc_keys(r@)[j] == key@;
                            assert(r@[j].0 == key@);
                            lemma_assoc_get(r@, j);
                            assert(r@[j].1.files.no_duplicates());
                        }
                    }
                    g2.pids.push(pid);
                    g2.files.union_with(&info.files);
                    g2
                },
                None => NameGroup { pids: singleton_vec(pid), files: info.files.clone() },
            };
            let ghost ngv = ng@;
            let ghost rpre = r@;
            r.insert(key.as_str(), ng);
            proof {
                let gm = group_fold_spec(fwd.subrange(0, i + 1));
                assert(r.as_map() == mpre.insert(key@, ngv));
                assert(r.as_map().dom() =~= gm.dom());
                assert forall|k: Seq<char>| #[trigger]
                    r.as_map().dom().contains(k) implies r.as_map()[k].pids == gm[k].0
                    && r.as_map()[k].files.to_set() == gm[k].1 by {
                    if k != key@ {
                        assert(mpre.dom().contains(k));
                    }
                }
                assert(ng_values_wf(r@)) by {
                    assert forall|j: int|
                        0 <= j < r@.len() implies (#[trigger] r@[j].1).files.no_duplicates() by {
                        if r@[j].1 != ngv {
                            assert(rpre.contains(r@[j]));
                            let a = choose|a: int| 0 <= a < rpre.len() && rpre[a] == r@[j];
                            assert(rpre[a].1.files.no_duplicates());
                        }
                    }
                }
            }
            i += 1;
        }
        proof {
            assert(fwd.subrange(0, n as int) =~= fwd);
        }
        r
    }

    /// Collapse the forward map into a name-keyed summary, consuming the
    /// index.
    pub fn into_proc_to_files(self) -> (r: StrMap<NameGroup>)
        requires
            self.wf(),
        ensures
            r.wf(),
            ng_values_wf(r@),
            models_groups(r.as_map(), group_fold_spec(self.forward_seq())),
    {
        self.proc_to_files()
    }
}

/// A one-element vector.
fn singleton_vec(pid: u64) -> (r: Vec<u64>)
    ensures
        r@ == seq![pid],
{
    let mut r: Vec<u64> = Vec::new();
    r.push(pid);
    proof {
        assert(r@ =~= seq![pid]);
    }
    r
}

// ---------------------------------------------------------------------------
// Counting folds
// ---------------------------------------------------------------------------

/// Abstract value of a [`CountGroup`].
pub ghost struct CountGroupV {
    pub min_pid: u64,
    pub npids: int,
    pub nfiles: int,
}

/// One group of the counting summary: the least pid grouped under the key,
/// how many pids the group holds, and the total of their file counts.
#[derive(Clone, Copy)]
pub struct CountGroup {
    pub min_pid: u64,
    pub npids: usize,
    pub nfiles: usize,
}

impl View for CountGroup {
    type V = CountGroupV;

    open spec fn view(&self) -> CountGroupV {
        CountGroupV { min_pid: self.min_pid, npids: self.npids as int, nfiles: self.nfiles as int }
    }
}

/// The counting summary of a forward sequence, keyed by display name.
pub open spec fn name_count_fold(s: Seq<(u64, ProcInfoV)>) -> Map<Seq<char>, CountGroupV>
    decreases s.len(),
{
    if s.len() == 0 {
        Map::empty()
    } else {
        let m = name_count_fold(s.drop_last());
        let pid = s.last().0;
        let info = s.last().1;
        let k = group_key(pid, info);
        if m.dom().contains(k) {
            m.insert(
                k,
                CountGroupV {
                    min_pid: if pid < m[k].min_pid {
                        pid
                    } else {
                        m[k].min_pid
                    },
                    npids: m[k].npids + 1,
                    nfiles: m[k].nfiles + info.files.len(),
                },
            )
        } else {
            m.insert(k, CountGroupV { min_pid: pid, npids: 1, nfiles: info.files.len() as int })
        }
    }
}

/// The total of the groups' file counts.
pub open spec fn groups_nfiles_sum(s: Seq<(Seq<char>, CountGroupV)>) -> int
    decreases s.len(),
{
    if s.len() == 0 {
        0
    } else {
        groups_nfiles_sum(s.drop_last()) + s.last().1.nfiles
    }
}

proof fn lemma_sum_update(s: Seq<(Seq<char>, CountGroupV)>, j: int, v: (Seq<char>, CountGroupV))
    requires
        0 <= j < s.len(),
    ensures
        groups_nfiles_sum(s.update(j, v)) == groups_nfiles_sum(s) - s[j].1.nfiles + v.1.nfiles,
    decreases s.len(),
{
    let u = s.update(j, v);
    if j == s.len() - 1 {
        assert(u.drop_last() =~= s.drop_last());
        assert(u.last() == v);
    } else {
        lemma_sum_update(s.drop_last(), j, v);
        assert(u.drop_last() =~= s.drop_last().update(j, v));
        assert(u.last() == s.last());
        assert(s.drop_last()[j] == s[j]);
    }
}

proof fn lemma_sum_push(s: Seq<(Seq<char>, CountGroupV)>, v: (Seq<char>, CountGroupV))
    ensures
        groups_nfiles_sum(s.push(v)) == groups_nfiles_sum(s) + v.1.nfiles,
{
    assert(s.push(v).drop_last() =~= s);
}

/// Every group's file count is at most the total, the counts being
/// non-negative.
proof fn lemma_sum_bounds(s: Seq<(Seq<char>, CountGroupV)>, j: int)
    requires
        0 <= j < s.len(),
        forall|i: int| 0 <= i < s.len() ==> (#[trigger] s[i].1).nfiles >= 0,
    ensures
        s[j].1.nfiles <= groups_nfiles_sum(s),
    decreases s.len(),
{
    if j == s.len() - 1 {
        lemma_sum_nonneg(s.drop_last());
        assert forall|i: int|
            0 <= i < s.drop_last().len() implies (#[trigger] s.drop_last()[i].1).nfiles >= 0 by {
            assert(s.drop_last()[i] == s[i]);
        }
    } else {
        assert(s.drop_last()[j] == s[j]);
        assert forall|i: int|
            0 <= i < s.drop_last().len() implies (#[trigger] s.drop_last()[i].1).nfiles >= 0 by {
            assert(s.drop_last()[i] == s[i]);
        }
        lemma_sum_bounds(s.drop_last(), j);
    }
}

proof fn lemma_sum_nonneg(s: Seq<(Seq<char>, CountGroupV)>)
    requires
        forall|i: int| 0 <= i < s.len() ==> (#[trigger] s[i].1).nfiles >= 0,
    ensures
        groups_nfiles_sum(s) >= 0,
    decreases s.len(),
{
    if s.len() > 0 {
        assert forall|i: int|
            0 <= i < s.drop_last().len() implies (#[trigger] s.drop_last()[i].1).nfiles >= 0 by {
            assert(s.drop_last()[i] == s[i]);
        }
        lemma_sum_nonneg(s.drop_last());
    }
}

/// A prefix of the forward sequence has at most the whole's pairs.
pub proof fn lemma_pairs_count_mono(s: Seq<(u64, ProcInfoV)>, i: int)
    requires
        0 <= i <= s.len(),
    ensures
        pairs_count(s.subrange(0, i)) <= pairs_count(s),
    decreases s.len() - i,
{
    if i == s.len() {
        assert(s.subrange(0, s.len() as int) =~= s);
    } else {
        lemma_pairs_count_mono(s, i + 1);
        assert(s.subrange(0, i + 1).drop_last() =~= s.subrange(0, i));
        assert(s.subrange(0, i + 1).last() == s[i]);
    }
}

impl Data {
    /// Collapse the forward map into a counting summary keyed by display
    /// name: least pid, number of pids, and total file count per group. The
    /// total of the groups' file counts equals the number of (process, file)
    /// pairs.
    pub fn fold_by_proc_name_w_count(&self) -> (r: StrMap<CountGroup>)
        requires
            self.wf(),
            pairs_count(self.forward_seq()) <= usize::MAX,
        ensures
            r.wf(),
            r.as_map() == name_count_fold(self.forward_seq()),
            groups_nfiles_sum(r@) == pairs_count(self.forward_seq()),
    {
        let ghost fwd = self.forward_seq();
        let map = self.pid_to_files();
        let mut r: StrMap<CountGroup> = StrMap::new();
        let n = map.len();
        let mut i: usize = 0;
        proof {
            assert(fwd.subrange(0, 0) =~= Seq::<(u64, ProcInfoV)>::empty());
            assert(r.as_map() =~= name_count_fold(fwd.subrange(0, 0)));
        }
        while i < n
            invariant
                i <= n,
                n == fwd.len(),
                fwd == map@,
                map.wf(),
                pairs_count(fwd) <= usize::MAX,
                r.wf(),
                r.as_map() == name_count_fold(fwd.subrange(0, i as int)),
                groups_nfiles_sum(r@) == pairs_count(fwd.subrange(0, i as int)),
                forall|j: int| 0 <= j < r@.len() ==> (#[trigger] r@[j].1).npids <= i,
                forall|j: int| 0 <= j < r@.len() ==> (#[trigger] r@[j].1).nfiles >= 0,
            decreases n - i,
        {
            proof {
                assert(fwd.subrange(0, i + 1).drop_last() =~= fwd.subrange(0, i as int));
                assert(fwd.subrange(0, i + 1).last() == fwd[i as int]);
                lemma_pairs_count_mono(fwd, i + 1);
            }
            let pair = map.index_pair(i);
            let pid = pair.0;
            let info = pair.1;
            let nf = info.files.len();
            let key: String = match &info.name {
                Some(nm) => nm.clone(),
                None => u64_to_string(pid),
            };
            proof {
                assert(key@ == group_key(fwd[i as int].0, fwd[i as int].1));
            }
            let ghost mpre = r.as_map();
            let ghost rpre = r@;
            let cg = match r.get(key.as_str()) {
                Some(g) => {
                    proof {
                        // bound the group's counters by the running totals
                        lemma_assoc_dom(r@);
                        if assoc_keys(r@).contains(key@) {
                            let j = choose|j: int|
                                0 <= j < r@.len() && assoc_keys(r@)[j] == key@;
                            assert(r@[j].0 == key@);
                            lemma_assoc_get(r@, j);
                            lemma_sum_bounds(r@, j);
                        }
                    }
                    CountGroup {
                        min_pid: if pid < g.min_pid {
                            pid
                        } else {
                            g.min_pid
                        },
                        npids: g.npids + 1,
                        nfiles: g.nfiles + nf,
                    }
                },
                None => CountGroup { min_pid: pid, npids: 1, nfiles: nf },
            };
            let ghost cgv = cg@;
            r.insert(key.as_str(), cg);
            proof {
                assert(r.as_map() =~= name_count_fold(fwd.subrange(0, i + 1)));
                if mpre.dom().contains(key@) {
                    let j = choose|j: int|
                        0 <= j < rpre.len() && (#[trigger] rpre[j]).0 == key@ && r@
                            == rpre.update(j, (key@, cgv));
                    lemma_assoc_get(rpre, j);
                    lemma_sum_update(rpre, j, (key@, cgv));
                } else {
                    lemma_sum_push(rpre, (key@, cgv));
                }
                assert forall|j: int|
                    0 <= j < r@.len() implies (#[trigger] r@[j].1).npids <= i + 1 && (
                #[trigger] r@[j].1).nfiles >= 0 by {
                    if r@[j].1 != cgv {
                        assert(rpre.contains(r@[j]));
                        let a = choose|a: int| 0 <= a < rpre.len() && rpre[a] == r@[j];
                        assert(rpre[a].1.npids <= i);
                        assert(rpre[a].1.nfiles >= 0);
                    }
                }
            }
            i += 1;
        }
        proof {
            assert(fwd.subrange(0, n as int) =~= fwd);
        }
        r
    }

    /// Collapse the forward map into one row per process: its pid, its name,
    /// and how many files it holds. The rows' file counts total exactly the
    /// number of (process, file) pairs.
    pub fn fold_by_pid_w_count(&self) -> (r: Vec<(u64, Option<String>, usize)>)
        ensures
            r@.len() == self.forward_seq().len(),
            forall|i: int|
                0 <= i < r@.len() ==> (#[trigger] r@[i]).0 == self.forward_seq()[i].0
                    && opt_str_view(r@[i].1) == self.forward_seq()[i].1.name && r@[i].2
                    == self.forward_seq()[i].1.files.len(),
            fold_rows_count(r@) == pairs_count(self.forward_seq()),
    {
        let ghost fwd = self.forward_seq();
        let map = self.pid_to_files();
        let mut r: Vec<(u64, Option<String>, usize)> = Vec::new();
        let n = map.len();
        let mut i: usize = 0;
        while i < n
            invariant
                i <= n,
                n == fwd.len(),
                fwd == map@,
                r@.len() == i,
                forall|j: int|
                    0 <= j < i ==> (#[trigger] r@[j]).0 == fwd[j].0 && opt_str_view(r@[j].1)
                        == fwd[j].1.name && r@[j].2 == fwd[j].1.files.len(),
                fold_rows_count(r@) == pairs_count(fwd.subrange(0, i as int)),
            decreases n - i,
        {
            let ghost rpre = r@;
            proof {
                assert(fwd.subrange(0, i + 1).drop_last() =~= fwd.subrange(0, i as int));
                assert(fwd.subrange(0, i + 1).last() == fwd[i as int]);
            }
            let pair = map.index_pair(i);
            let name: Option<String> = match &pair.1.name {
                Some(nm) => Some(nm.clone()),
                None => None,
            };
            let row = (pair.0, name, pair.1.files.len());
            r.push(row);
            proof {
                assert(r@.drop_last() =~= rpre);
            }
            i += 1;
        }
        proof {
            assert(fwd.subrange(0, n as int) =~= fwd);
        }
        r
    }
}

/// The total of the rows' file counts.
pub open spec fn fold_rows_count(s: Seq<(u64, Option<String>, usize)>) -> int
    decreases s.len(),
{
    if s.len() == 0 {
        0
    } else {
        fold_rows_count(s.drop_last()) + s.last().2
    }
}

} // verus!
