//! The snapshot index: a forward map from process ids to their records and a
//! lazily built inverted map from file identifiers to their holders, with
//! lookup, inversion and flattening.

use vstd::prelude::*;
use crate::maps::{assoc_keys, assoc_map_of, lemma_assoc_dom, lemma_assoc_get, PidMap, StrMap};
use crate::records::{
    entries_of, entry_views, Entry, FdInfo, Proc, ProcInfo, ProcInfoV,
};
use crate::sets::PidSet;
use crate::strutil::str_eq;

verus! {

// ---------------------------------------------------------------------------
// Errors
// ---------------------------------------------------------------------------

/// Why a lookup in the index failed.
#[derive(Clone, Copy, Debug, PartialEq, Eq, Structural)]
pub enum FindError {
    /// `find` was called before any inversion.
    NotInverted,
    /// The identifier is not a key of the inverted map.
    NotFound,
}

// ---------------------------------------------------------------------------
// The inversion, specified
// ---------------------------------------------------------------------------

/// The optional target a textual argument denotes: empty means "invert
/// everything".
pub open spec fn target_of(t: Seq<char>) -> Option<Seq<char>> {
    if t.len() == 0 {
        None
    } else {
        Some(t)
    }
}

/// Whether a file identifier passes the inversion target.
pub open spec fn file_matches(target: Option<Seq<char>>, f: Seq<char>) -> bool {
    match target {
        None => true,
        Some(t) => f == t,
    }
}

/// The set of processes of `fwd` that hold `f`.
pub open spec fn holders(fwd: Map<u64, ProcInfoV>, f: Seq<char>) -> Set<u64> {
    Set::new(|p: u64| fwd.dom().contains(p) && fwd[p].files.contains(f))
}

/// The file identifiers held by at least one process of `fwd`.
pub open spec fn held_files(fwd: Map<u64, ProcInfoV>) -> Set<Seq<char>> {
    Set::new(
        |f: Seq<char>|
            exists|p: u64| fwd.dom().contains(p) && (#[trigger] fwd[p]).files.contains(f),
    )
}

/// The inverted map a forward map denotes: every held identifier that passes
/// the target, sent to its holders.
pub open spec fn invert_spec(fwd: Map<u64, ProcInfoV>, target: Option<Seq<char>>) -> Map<
    Seq<char>,
    Set<u64>,
> {
    Map::new(
        |f: Seq<char>| held_files(fwd).contains(f) && file_matches(target, f),
        |f: Seq<char>| holders(fwd, f),
    )
}

/// Whether a concrete inverted map agrees with the inversion of `fwd` under
/// `target`: same keys, and each key's holder sequence enumerates exactly the
/// holder set.
pub open spec fn matches_inversion(
    m: Map<Seq<char>, Seq<u64>>,
    fwd: Map<u64, ProcInfoV>,
    target: Option<Seq<char>>,
) -> bool {
    &&& m.dom() == invert_spec(fwd, target).dom()
    &&& forall|f: Seq<char>| #[trigger] m.dom().contains(f) ==> m[f].to_set() == holders(fwd, f)
}

// ---------------------------------------------------------------------------
// The inversion as the loops compute it
// ---------------------------------------------------------------------------

/// A holder sequence extended by a possibly repeated process id.
pub open spec fn insert_unique(s: Seq<u64>, pid: u64) -> Seq<u64> {
    if s.contains(pid) {
        s
    } else {
        s.push(pid)
    }
}

/// One (file, pid) pair recorded into an inverted map.
pub open spec fn add_holder(m: Map<Seq<char>, Seq<u64>>, f: Seq<char>, pid: u64) -> Map<
    Seq<char>,
    Seq<u64>,
> {
    if m.dom().contains(f) {
        m.insert(f, insert_unique(m[f], pid))
    } else {
        m.insert(f, seq![pid])
    }
}

/// One process record folded into an inverted map, file by file.
pub open spec fn invert_files(
    m: Map<Seq<char>, Seq<u64>>,
    pid: u64,
    files: Seq<Seq<char>>,
    target: Option<Seq<char>>,
) -> Map<Seq<char>, Seq<u64>>
    decreases files.len(),
{
    if files.len() == 0 {
        m
    } else {
        let m1 = invert_files(m, pid, files.drop_last(), target);
        if file_matches(target, files.last()) {
            add_holder(m1, files.last(), pid)
        } else {
            m1
        }
    }
}

/// A whole forward sequence folded into an inverted map, record by record.
pub open spec fn invert_fold(
    m: Map<Seq<char>, Seq<u64>>,
    entries: Seq<(u64, ProcInfoV)>,
    target: Option<Seq<char>>,
) -> Map<Seq<char>, Seq<u64>>
    decreases entries.len(),
{
    if entries.len() == 0 {
        m
    } else {
        invert_files(
            invert_fold(m, entries.drop_last(), target),
            entries.last().0,
            entries.last().1.files,
            target,
        )
    }
}

/// Every holder sequence of an inverted map is duplicate-free.
pub open spec fn fd_values_wf(s: Seq<(Seq<char>, Seq<u64>)>) -> bool {
    forall|i: int| 0 <= i < s.len() ==> (#[trigger] s[i].1).no_duplicates()
}

// ---------------------------------------------------------------------------
// Flattening, specified
// ---------------------------------------------------------------------------

/// The flattened listing of a forward sequence: every record's entries, in
/// record order.
pub open spec fn flatten_spec(s: Seq<(u64, ProcInfoV)>) -> Seq<crate::records::EntryV>
    decreases s.len(),
{
    if s.len() == 0 {
        Seq::empty()
    } else {
        flatten_spec(s.drop_last()) + entries_of(s.last().0, s.last().1)
    }
}

/// The number of (process, file) pairs of a forward sequence.
pub open spec fn pairs_count(s: Seq<(u64, ProcInfoV)>) -> int
    decreases s.len(),
{
    if s.len() == 0 {
        0
    } else {
        pairs_count(s.drop_last()) + s.last().1.files.len()
    }
}

/// The flattened listing has exactly one entry per (process, file) pair.
pub proof fn lemma_flatten_count(s: Seq<(u64, ProcInfoV)>)
    ensures
        flatten_spec(s).len() == pairs_count(s),
    decreases s.len(),
{
    if s.len() > 0 {
        lemma_flatten_count(s.drop_last());
    }
}

// ---------------------------------------------------------------------------
// The index
// ---------------------------------------------------------------------------

/// One complete scan result: the forward map, and the inverted map once an
/// inversion has been requested.
pub struct Data {
    pid_to_files: PidMap,
    files_to_pid: Option<StrMap<FdInfo>>,
}

impl Data {
    /// The forward map's underlying sequence of (pid, record) pairs.
    pub closed spec fn forward_seq(self) -> Seq<(u64, ProcInfoV)> {
        self.pid_to_files@
    }

    /// The forward map: process id to record.
    pub open spec fn forward(self) -> Map<u64, ProcInfoV> {
        assoc_map_of(self.forward_seq())
    }

    /// The inverted map's underlying sequence, once built.
    pub closed spec fn inverted_seq(self) -> Option<Seq<(Seq<char>, Seq<u64>)>> {
        match self.files_to_pid {
            Some(m) => Some(m@),
            None => None,
        }
    }

    /// The inverted map: file identifier to holder sequence, once built.
    pub open spec fn inverted(self) -> Option<Map<Seq<char>, Seq<u64>>> {
        match self.inverted_seq() {
            Some(s) => Some(assoc_map_of(s)),
            None => None,
        }
    }

    /// Well-formed: unique pids, well-formed records, and, once built, an
    /// inverted map with unique keys and duplicate-free holder sequences.
    pub closed spec fn wf(self) -> bool {
        &&& self.pid_to_files.wf()
        &&& match self.files_to_pid {
            None => true,
            Some(m) => m.wf() && fd_values_wf(m@),
        }
    }

    /// The empty index, nothing inverted.
    pub fn new() -> (r: Data)
        ensures
            r.wf(),
            r.forward_seq() == Seq::<(u64, ProcInfoV)>::empty(),
            r.inverted() is None,
    {
        Data { pid_to_files: PidMap::new(), files_to_pid: None }
    }

    /// Wrap a finished forward map, nothing inverted.
    pub fn from_forward(map: PidMap) -> (r: Data)
        requires
            map.wf(),
        ensures
            r.wf(),
            r.forward_seq() == map@,
            r.inverted() is None,
    {
        Data { pid_to_files: map, files_to_pid: None }
    }

    /// The forward map.
    pub fn pid_to_files(&self) -> (r: &PidMap)
        ensures
            r@ == self.forward_seq(),
            self.wf() ==> r.wf(),
    {
        &self.pid_to_files
    }

    /// The inverted map, if an inversion has been requested.
    pub fn files_to_pid(&self) -> (r: Option<&StrMap<FdInfo>>)
        ensures
            match r {
                Some(m) => self.inverted_seq() == Some(m@) && (self.wf() ==> m.wf()),
                None => self.inverted_seq() is None,
            },
    {
        match &self.files_to_pid {
            Some(m) => Some(m),
            None => None,
        }
    }

    /// Give the forward map up.
    pub fn into_pid_to_files(self) -> (r: PidMap)
        ensures
            r@ == self.forward_seq(),
            self.wf() ==> r.wf(),
    {
        self.pid_to_files
    }

    /// Rebuild the inverted map from the forward map. An empty target inverts
    /// everything; a non-empty target indexes only that one identifier.
    pub fn invert_pid_to_files(&mut self, target_filename: &str)
        requires
            old(self).wf(),
        ensures
            final(self).wf(),
            final(self).forward_seq() == old(self).forward_seq(),
            final(self).inverted() matches Some(m) && m == invert_fold(
                Map::empty(),
                old(self).forward_seq(),
                target_of(target_filename@),
            ) && matches_inversion(m, old(self).forward(), target_of(target_filename@)),
    {
        let ghost fwd = self.pid_to_files@;
        let ghost target = target_of(target_filename@);
        let mut inv: StrMap<FdInfo> = StrMap::new();
        let n = self.pid_to_files.len();
        let mut i: usize = 0;
        proof {
            assert(fwd.subrange(0, 0) =~= Seq::<(u64, ProcInfoV)>::empty());
        }
        while i < n
            invariant
                i <= n,
                n == fwd.len(),
                fwd == self.pid_to_files@,
                *self == *old(self),
                old(self).wf(),
                target == target_of(target_filename@),
                inv.wf(),
                fd_values_wf(inv@),
                inv.as_map() == invert_fold(Map::empty(), fwd.subrange(0, i as int), target),
            decreases n - i,
        {
            let ghost base = invert_fold(Map::empty(), fwd.subrange(0, i as int), target);
            let pair = self.pid_to_files.index_pair(i);
            let pid = pair.0;
            let info = pair.1;
            let fl = info.files.len();
            let mut j: usize = 0;
            proof {
                assert(info.files@.subrange(0, 0) =~= Seq::<Seq<char>>::empty());
            }
            while j < fl
                invariant
                    j <= fl,
                    fl == info.files@.len(),
                    pid == fwd[i as int].0,
                    info.files@ == fwd[i as int].1.files,
                    0 <= i < fwd.len(),
                    target == target_of(target_filename@),
                    inv.wf(),
                    fd_values_wf(inv@),
                    inv.as_map() == invert_files(
                        base,
                        pid,
                        info.files@.subrange(0, j as int),
                        target,
                    ),
                decreases fl - j,
            {
                let ghost pre = info.files@.subrange(0, j as int);
                let ghost ext = info.files@.subrange(0, j + 1);
                proof {
                    assert(ext.drop_last() =~= pre);
                    assert(ext.last() == info.files@[j as int]);
                }
                let f = info.files.index(j);
                if target_filename.unicode_len() == 0 || str_eq(f.as_str(), target_filename) {
                    proof {
                        assert(file_matches(target, info.files@[j as int]));
                    }
                    filemap_add_pid(&mut inv, f.as_str(), pid);
                } else {
                    proof {
                        assert(!file_matches(target, info.files@[j as int]));
                    }
                }
                j += 1;
            }
            proof {
                assert(info.files@.subrange(0, fl as int) =~= info.files@);
                assert(fwd.subrange(0, i + 1).drop_last() =~= fwd.subrange(0, i as int));
                assert(fwd.subrange(0, i + 1).last() == fwd[i as int]);
            }
            i += 1;
        }
        proof {
            assert(fwd.subrange(0, n as int) =~= fwd);
        }
        self.files_to_pid = Some(inv);
        proof {
            lemma_invert_fold_correct(fwd, target);
        }
    }

    /// Rebuild the whole inverted map and give it up.
    pub fn into_files_to_pid(self) -> (r: StrMap<FdInfo>)
        requires
            self.wf(),
        ensures
            r.wf(),
            fd_values_wf(r@),
            matches_inversion(r.as_map(), self.forward(), None),
    {
        let mut d = self;
        d.invert_pid_to_files("");
        proof {
            reveal_strlit("");
            assert(""@.len() == 0);
        }
        match d.files_to_pid {
            Some(m) => m,
            None => vstd::pervasive::unreached(),
        }
    }

    /// Which processes hold the given identifier, each resolved against the
    /// forward map: `Ok` with the record, or, defensively, `Err` with the
    /// bare pid for a holder the forward map no longer knows.
    pub fn find(&self, path: &str) -> (r: Result<Vec<Result<Proc, u64>>, FindError>)
        requires
            self.wf(),
        ensures
            match r {
                Err(FindError::NotInverted) => self.inverted() is None,
                Err(FindError::NotFound) => self.inverted() matches Some(m) && !m.dom().contains(
                    path@,
                ),
                Ok(v) => self.inverted() matches Some(m) && m.dom().contains(path@) && {
                    let pids = m[path@];
                    &&& v@.len() == pids.len()
                    &&& forall|i: int|
                        0 <= i < v@.len() ==> match #[trigger] v@[i] {
                            Ok(p) => self.forward().dom().contains(pids[i]) && p@.pid == pids[i]
                                && p@.info == self.forward()[pids[i]],
                            Err(pid) => pid == pids[i] && !self.forward().dom().contains(pids[i]),
                        }
                },
            },
    {
        let m = match &self.files_to_pid {
            None => {
                return Err(FindError::NotInverted);
            },
            Some(m) => m,
        };
        let fdinfo = match m.get(path) {
            None => {
                return Err(FindError::NotFound);
            },
            Some(t) => t,
        };
        let ghost pids = m.as_map()[path@];
        let k = fdinfo.pids.len();
        let mut v: Vec<Result<Proc, u64>> = Vec::new();
        let mut i: usize = 0;
        while i < k
            invariant
                i <= k,
                k == pids.len(),
                fdinfo@ == pids,
                fdinfo.pids@ == pids,
                self.wf(),
                v@.len() == i,
                forall|j: int|
                    0 <= j < i ==> match #[trigger] v@[j] {
                        Ok(p) => self.forward().dom().contains(pids[j]) && p@.pid == pids[j]
                            && p@.info == self.forward()[pids[j]],
                        Err(pid) => pid == pids[j] && !self.forward().dom().contains(pids[j]),
                    },
            decreases k - i,
        {
            let pid = fdinfo.pids.index(i);
            match self.pid_to_files.get(pid) {
                Some(p) => {
                    v.push(Ok(Proc { pid, info: p.clone() }));
                },
                None => {
                    v.push(Err(pid));
                },
            }
            i += 1;
        }
        Ok(v)
    }

    /// The flattened listing: one entry per (process, file) pair, in record
    /// order.
    pub fn flattened(&self) -> (r: Vec<Entry>)
        ensures
            entry_views(r@) == flatten_spec(self.forward_seq()),
    {
        let ghost fwd = self.pid_to_files@;
        let n = self.pid_to_files.len();
        let mut r: Vec<Entry> = Vec::new();
        let mut i: usize = 0;
        proof {
            assert(fwd.subrange(0, 0) =~= Seq::<(u64, ProcInfoV)>::empty());
            assert(entry_views(r@) =~= flatten_spec(fwd.subrange(0, 0)));
        }
        while i < n
            invariant
                i <= n,
                n == fwd.len(),
                fwd == self.pid_to_files@,
                entry_views(r@) == flatten_spec(fwd.subrange(0, i as int)),
            decreases n - i,
        {
            let pair = self.pid_to_files.index_pair(i);
            let ghost rpre = r@;
            let mut part = Entry::from_proc(pair.0, pair.1);
            let ghost partv = part@;
            r.append(&mut part);
            proof {
                assert(fwd.subrange(0, i + 1).drop_last() =~= fwd.subrange(0, i as int));
                assert(fwd.subrange(0, i + 1).last() == fwd[i as int]);
                assert(entry_views(r@) =~= entry_views(rpre) + entry_views(partv));
                assert(entry_views(r@) =~= flatten_spec(fwd.subrange(0, i + 1)));
            }
            i += 1;
        }
        proof {
            assert(fwd.subrange(0, n as int) =~= fwd);
        }
        r
    }
}

impl Default for Data {
    fn default() -> (r: Data)
        ensures
            r.wf(),
            r.forward_seq() == Seq::<(u64, ProcInfoV)>::empty(),
            r.inverted() is None,
    {
        Data::new()
    }
}

// ---------------------------------------------------------------------------
// Recording one (file, pid) pair
// ---------------------------------------------------------------------------

/// Record that `pid` holds the identifier `key` in an inverted map.
fn filemap_add_pid(m: &mut StrMap<FdInfo>, key: &str, pid: u64)
    requires
        old(m).wf(),
        fd_values_wf(old(m)@),
    ensures
        final(m).wf(),
        fd_values_wf(final(m)@),
        final(m).as_map() == add_holder(old(m).as_map(), key@, pid),
{
    let newinfo = match m.get(key) {
        Some(info) => {
            let mut ni = info.clone();
            proof {
                lemma_assoc_dom(m@);
                if assoc_keys(m@).contains(key@) {
                    let i = choose|i: int| 0 <= i < m@.len() && assoc_keys(m@)[i] == key@;
                    assert(m@[i].0 == key@);
                    lemma_assoc_get(m@, i);
                    assert(m@[i].1.no_duplicates());
                }
            }
            ni.pids.insert(pid);
            ni
        },
        None => FdInfo { pids: PidSet::singleton(pid) },
    };
    let ghost nv = newinfo@;
    let ghost pre = m@;
    m.insert(key, newinfo);
    proof {
        assert(fd_values_wf(m@)) by {
            assert forall|i: int| 0 <= i < m@.len() implies (#[trigger] m@[i].1).no_duplicates() by {
                if m@[i].1 != nv {
                    assert(pre.contains(m@[i]));
                    let j = choose|j: int| 0 <= j < pre.len() && pre[j] == m@[i];
                    assert(pre[j].1.no_duplicates());
                }
            }
        }
    }
}

// ---------------------------------------------------------------------------
// Correctness of the fold
// ---------------------------------------------------------------------------

/// What one record's fold does to an inverted map: it adds the record's
/// matching files to the keys, and the record's pid to their holder
/// sequences, and touches nothing else.
proof fn lemma_invert_files(
    m: Map<Seq<char>, Seq<u64>>,
    pid: u64,
    files: Seq<Seq<char>>,
    target: Option<Seq<char>>,
)
    ensures
        forall|f: Seq<char>| #[trigger]
            invert_files(m, pid, files, target).dom().contains(f) <==> (m.dom().contains(f) || (
            files.contains(f) && file_matches(target, f))),
        forall|f: Seq<char>| #[trigger]
            invert_files(m, pid, files, target).dom().contains(f)
                ==> invert_files(m, pid, files, target)[f].to_set() == (
            if m.dom().contains(f) {
                m[f].to_set()
            } else {
                Set::<u64>::empty()
            }).union(
                if files.contains(f) && file_matches(target, f) {
                    Set::<u64>::empty().insert(pid)
                } else {
                    Set::<u64>::empty()
                },
            ),
    decreases files.len(),
{
    if files.len() == 0 {
        assert forall|f: Seq<char>| #[trigger]
            invert_files(m, pid, files, target).dom().contains(f) implies m.dom().contains(f)
            || (files.contains(f) && file_matches(target, f)) by {}
        assert forall|f: Seq<char>|
            m.dom().contains(f) implies #[trigger] invert_files(m, pid, files, target)[
            f].to_set() == (
        if m.dom().contains(f) {
            m[f].to_set()
        } else {
            Set::<u64>::empty()
        }).union(Set::<u64>::empty()) by {
            assert(m[f].to_set().union(Set::<u64>::empty()) =~= m[f].to_set());
        }
    } else {
        let fl = files.drop_last();
        let last = files.last();
        let m1 = invert_files(m, pid, fl, target);
        let m2 = invert_files(m, pid, files, target);
        lemma_invert_files(m, pid, fl, target);
        // membership in `files` splits into the front and the last element
        assert forall|f: Seq<char>| #[trigger]
            files.contains(f) implies fl.contains(f) || f == last by {
            let i = choose|i: int| 0 <= i < files.len() && files[i] == f;
            if i < files.len() - 1 {
                assert(fl[i] == f);
            }
        }
        assert forall|f: Seq<char>| fl.contains(f) implies #[trigger] files.contains(f) by {
            let i = choose|i: int| 0 <= i < fl.len() && fl[i] == f;
            assert(files[i] == f);
        }
        assert(files.contains(last)) by {
            assert(files[files.len() - 1] == last);
        }
        if file_matches(target, last) {
            assert(m2 == add_holder(m1, last, pid));
            assert forall|f: Seq<char>| #[trigger]
                m2.dom().contains(f) <==> (m.dom().contains(f) || (files.contains(f)
                && file_matches(target, f))) by {}
            assert forall|f: Seq<char>| #[trigger]
                m2.dom().contains(f) implies m2[f].to_set() == (
            if m.dom().contains(f) {
                m[f].to_set()
            } else {
                Set::<u64>::empty()
            }).union(
                if files.contains(f) && file_matches(target, f) {
                    Set::<u64>::empty().insert(pid)
                } else {
                    Set::<u64>::empty()
                },
            ) by {
                let base = if m.dom().contains(f) {
                    m[f].to_set()
                } else {
                    Set::<u64>::empty()
                };
                if f == last {
                    if m1.dom().contains(f) {
                        assert(m2[f] == insert_unique(m1[f], pid));
                        if m1[f].contains(pid) {
                            assert(m1[f].to_set().contains(pid));
                            assert(m2[f].to_set() =~= m1[f].to_set().insert(pid));
                        } else {
                            assert(m1[f] + seq![pid] =~= m1[f].push(pid));
                            Seq::<u64>::lemma_to_set_insert_commutes(m1[f], pid);
                            assert(m2[f].to_set() =~= m1[f].to_set().insert(pid));
                        }
                        assert(m2[f].to_set() =~= base.union(
                            Set::<u64>::empty().insert(pid),
                        ));
                    } else {
                        assert(!m.dom().contains(f));
                        assert(m2[f] == seq![pid]);
                        assert(m2[f].to_set() =~= Set::<u64>::empty().insert(pid)) by {
                            assert(m2[f][0] == pid);
                            assert forall|p: u64| #[trigger]
                                m2[f].to_set().contains(p) implies p == pid by {}
                        }
                        assert(m2[f].to_set() =~= base.union(
                            Set::<u64>::empty().insert(pid),
                        ));
                    }
                } else {
                    assert(m2[f] == m1[f]);
                }
            }
        } else {
            assert(m2 == m1);
            assert forall|f: Seq<char>| #[trigger]
                m2.dom().contains(f) <==> (m.dom().contains(f) || (files.contains(f)
                && file_matches(target, f))) by {
                if files.contains(f) && file_matches(target, f) {
                    assert(f != last);
                    assert(fl.contains(f));
                }
            }
        }
    }
}

// ---------------------------------------------------------------------------
// Laws of the inversion
// ---------------------------------------------------------------------------

/// Inversion correctness: after a full inversion, a process holds a file in
/// the forward map exactly when the inverted map lists it among the file's
/// holders; in particular no inverted entry names a pid outside the forward
/// map.
pub proof fn lemma_inversion_correct(
    m: Map<Seq<char>, Seq<u64>>,
    fwd: Map<u64, ProcInfoV>,
    pid: u64,
    f: Seq<char>,
)
    requires
        matches_inversion(m, fwd, None),
    ensures
        (fwd.dom().contains(pid) && fwd[pid].files.contains(f)) <==> (m.dom().contains(f)
            && m[f].to_set().contains(pid)),
{
    if fwd.dom().contains(pid) && fwd[pid].files.contains(f) {
        assert(held_files(fwd).contains(f));
        assert(invert_spec(fwd, None).dom().contains(f));
        assert(holders(fwd, f).contains(pid));
    }
    if m.dom().contains(f) && m[f].to_set().contains(pid) {
        assert(holders(fwd, f).contains(pid));
    }
}

/// Targeted inversion narrowing: an inversion aimed at one identifier keys
/// nothing else.
pub proof fn lemma_targeted_narrowing(
    m: Map<Seq<char>, Seq<u64>>,
    fwd: Map<u64, ProcInfoV>,
    t: Seq<char>,
    f: Seq<char>,
)
    requires
        matches_inversion(m, fwd, Some(t)),
        m.dom().contains(f),
    ensures
        f == t,
{
    assert(invert_spec(fwd, Some(t)).dom().contains(f));
}

/// Find round trip: after a full inversion, an identifier is a key exactly
/// when some process holds it, and its holder sequence then enumerates
/// exactly the processes whose file set contains it.
pub proof fn lemma_find_round_trip(
    m: Map<Seq<char>, Seq<u64>>,
    fwd: Map<u64, ProcInfoV>,
    f: Seq<char>,
)
    requires
        matches_inversion(m, fwd, None),
    ensures
        m.dom().contains(f) <==> exists|p: u64|
            fwd.dom().contains(p) && (#[trigger] fwd[p]).files.contains(f),
        m.dom().contains(f) ==> forall|p: u64|
            #[trigger] m[f].to_set().contains(p) <==> (fwd.dom().contains(p)
                && fwd[p].files.contains(f)),
{
    assert(m.dom() == invert_spec(fwd, None).dom());
    if m.dom().contains(f) {
        assert(held_files(fwd).contains(f));
        assert forall|p: u64| #[trigger]
            m[f].to_set().contains(p) <==> (fwd.dom().contains(p)
            && fwd[p].files.contains(f)) by {
            assert(m[f].to_set() == holders(fwd, f));
        }
    }
    if exists|p: u64| fwd.dom().contains(p) && (#[trigger] fwd[p]).files.contains(f) {
        assert(held_files(fwd).contains(f));
        assert(invert_spec(fwd, None).dom().contains(f));
    }
}

/// The record-by-record fold computes the specified inversion.
proof fn lemma_invert_fold_correct(s: Seq<(u64, ProcInfoV)>, target: Option<Seq<char>>)
    requires
        assoc_keys(s).no_duplicates(),
    ensures
        matches_inversion(invert_fold(Map::empty(), s, target), assoc_map_of(s), target),
    decreases s.len(),
{
    let m = invert_fold(Map::empty(), s, target);
    let fwd = assoc_map_of(s);
    if s.len() == 0 {
        assert(m.dom() =~= invert_spec(fwd, target).dom()) by {
            assert forall|f: Seq<char>| #[trigger]
                invert_spec(fwd, target).dom().contains(f) implies false by {
                assert(held_files(fwd).contains(f));
            }
        }
    } else {
        let t = s.drop_last();
        let pid = s.last().0;
        let info = s.last().1;
        assert(assoc_keys(t).no_duplicates()) by {
            assert(forall|a: int|
                0 <= a < t.len() ==> #[trigger] assoc_keys(t)[a] == assoc_keys(s)[a]);
            assert forall|a: int, b: int|
                0 <= a < assoc_keys(t).len() && 0 <= b < assoc_keys(t).len() && a != b implies
                assoc_keys(t)[a] != assoc_keys(t)[b] by {
                assert(assoc_keys(s)[a] != assoc_keys(s)[b]);
            }
        }
        lemma_invert_fold_correct(t, target);
        let mp = invert_fold(Map::empty(), t, target);
        let fwdt = assoc_map_of(t);
        assert(fwd == fwdt.insert(pid, info));
        // the last pid is fresh
        assert(!fwdt.dom().contains(pid)) by {
            lemma_assoc_dom(t);
            if assoc_keys(t).contains(pid) {
                let i = choose|i: int| 0 <= i < t.len() && assoc_keys(t)[i] == pid;
                assert(assoc_keys(s)[i] == pid);
                assert(assoc_keys(s)[s.len() - 1] == pid);
            }
        }
        lemma_invert_files(mp, pid, info.files, target);
        // holders of the extended map: the old holders, plus this pid for the
        // files it holds
        assert forall|f: Seq<char>| #[trigger]
            holders(fwd, f) == (
        if info.files.contains(f) {
            holders(fwdt, f).insert(pid)
        } else {
            holders(fwdt, f)
        }) by {
            if info.files.contains(f) {
                assert(holders(fwd, f) =~= holders(fwdt, f).insert(pid));
            } else {
                assert(holders(fwd, f) =~= holders(fwdt, f));
            }
        }
        // held files of the extended map
        assert forall|f: Seq<char>| #[trigger]
            held_files(fwd).contains(f) <==> (held_files(fwdt).contains(f)
            || info.files.contains(f)) by {
            if held_files(fwdt).contains(f) {
                let p = choose|p: u64| fwdt.dom().contains(p) && (#[trigger] fwdt[p]
                    ).files.contains(f);
                assert(fwd.dom().contains(p) && fwd[p].files.contains(f));
            }
            if info.files.contains(f) {
                assert(fwd.dom().contains(pid) && fwd[pid].files.contains(f));
            }
            if held_files(fwd).contains(f) {
                let p = choose|p: u64| fwd.dom().contains(p) && (#[trigger] fwd[p]
                    ).files.contains(f);
                if p != pid {
                    assert(fwdt.dom().contains(p) && fwdt[p].files.contains(f));
                }
            }
        }
        assert(m.dom() =~= invert_spec(fwd, target).dom());
        assert forall|f: Seq<char>| #[trigger] m.dom().contains(f) implies m[f].to_set()
            == holders(fwd, f) by {
            let base = if mp.dom().contains(f) {
                mp[f].to_set()
            } else {
                Set::<u64>::empty()
            };
            let extra = if info.files.contains(f) && file_matches(target, f) {
                Set::<u64>::empty().insert(pid)
            } else {
                Set::<u64>::empty()
            };
            assert(m[f].to_set() == base.union(extra));
            if mp.dom().contains(f) {
                assert(mp[f].to_set() == holders(fwdt, f));
            } else {
                assert(base =~= Set::<u64>::empty());
                assert(!held_files(fwdt).contains(f) || !file_matches(target, f));
            }
            if info.files.contains(f) {
                assert(m[f].to_set() =~= holders(fwd, f)) by {
                    if !mp.dom().contains(f) {
                        // nothing held f before, so its old holders are empty
                        assert(!held_files(fwdt).contains(f));
                        assert forall|p: u64| #[trigger]
                            holders(fwdt, f).contains(p) implies false by {
                            assert(held_files(fwdt).contains(f));
                        }
                    }
                }
            } else {
                assert(m[f].to_set() =~= holders(fwd, f)) by {
                    assert(extra =~= Set::<u64>::empty());
                    if !mp.dom().contains(f) {
                        assert(!m.dom().contains(f));
                    }
                }
            }
        }
    }
}

} // verus!
