//! The snapshot builder: turn the raw text read for each listed process into
//! the finished index, skipping non-process entries and degrading, never
//! failing, on processes that vanished mid-scan.

use vstd::prelude::*;
use crate::data::Data;
use crate::filetype::{Filetype, FiletypeV};
use crate::maps::PidMap;
use crate::procstat::{get_pid_name, stat_name_spec};
use crate::records::{opt_str_view, ProcInfo, ProcInfoV};
use crate::sets::FileSet;
use crate::strutil::{
    count_char, count_char_exec, is_digit_seq, digits_value, last_field, parse_u64, rfind_char,
    seq_views, split_lines, split_lines_spec,
};

verus! {

// ---------------------------------------------------------------------------
// Raw scan input
// ---------------------------------------------------------------------------

/// Abstract value of an [`FdEntry`].
pub ghost struct FdEntryV {
    pub raw: Seq<char>,
    pub resolved: Option<Seq<char>>,
}

/// One descriptor entry of a process: the raw entry path and, when the
/// symlink could still be resolved, its target.
pub struct FdEntry {
    pub raw: String,
    pub resolved: Option<String>,
}

impl View for FdEntry {
    type V = FdEntryV;

    open spec fn view(&self) -> FdEntryV {
        FdEntryV { raw: self.raw@, resolved: opt_str_view(self.resolved) }
    }
}

/// The identifier a descriptor entry contributes: its resolved target, or,
/// for a descriptor closed mid-scan, the raw entry path.
pub open spec fn fd_identifier(e: FdEntryV) -> Seq<char> {
    match e.resolved {
        Some(t) => t,
        None => e.raw,
    }
}

/// Abstract value of a [`ProcEntry`].
pub ghost struct ProcEntryV {
    pub path: Seq<char>,
    pub stat_content: Option<Seq<char>>,
    pub maps_content: Option<Seq<char>>,
    pub fd_entries: Seq<FdEntryV>,
}

/// The views of a sequence of descriptor entries.
pub open spec fn fd_entry_views(s: Seq<FdEntry>) -> Seq<FdEntryV> {
    Seq::new(s.len(), |i: int| s[i]@)
}

/// Everything read for one listed process entry: its listing path, its stat
/// record and mapping listing where they could be read, and its descriptor
/// entries.
pub struct ProcEntry {
    pub path: String,
    pub stat_content: Option<String>,
    pub maps_content: Option<String>,
    pub fd_entries: Vec<FdEntry>,
}

impl View for ProcEntry {
    type V = ProcEntryV;

    open spec fn view(&self) -> ProcEntryV {
        ProcEntryV {
            path: self.path@,
            stat_content: opt_str_view(self.stat_content),
            maps_content: opt_str_view(self.maps_content),
            fd_entries: fd_entry_views(self.fd_entries@),
        }
    }
}

/// The views of a sequence of process entries.
pub open spec fn proc_entry_views(s: Seq<ProcEntry>) -> Seq<ProcEntryV> {
    Seq::new(s.len(), |i: int| s[i]@)
}

// ---------------------------------------------------------------------------
// The process id of a listing path
// ---------------------------------------------------------------------------

/// A listing component that names a process: non-empty, all digits, value in
/// range.
pub open spec fn valid_pid_str(s: Seq<char>) -> bool {
    s.len() > 0 && is_digit_seq(s) && digits_value(s) <= u64::MAX
}

/// The process id a listing path denotes, if its final component is a valid
/// unsigned integer.
pub open spec fn pid_of_path(path: Seq<char>) -> Option<u64> {
    let s = last_field(path, '/');
    if valid_pid_str(s) {
        Some(digits_value(s) as u64)
    } else {
        None
    }
}

/// Split a listing path into its final component and the process id it
/// denotes, if any.
pub fn extract_pid_from_path(proc_path: &str) -> (r: (&str, Option<u64>))
    ensures
        r.0@ == last_field(proc_path@, '/'),
        r.1 == pid_of_path(proc_path@),
{
    let n = proc_path.unicode_len();
    let comp = match rfind_char(proc_path, '/') {
        Some(i) => {
            proof {
                crate::strutil::lemma_last_index(proc_path@, '/');
            }
            proc_path.substring_char(i + 1, n)
        },
        None => {
            proof {
                assert(proc_path@.subrange(0, proc_path@.len() as int) =~= proc_path@);
            }
            proc_path
        },
    };
    let pid = parse_u64(comp);
    (comp, pid)
}

// ---------------------------------------------------------------------------
// The memory-mapping listing
// ---------------------------------------------------------------------------

/// Whether one mapping line contributes: at least six space-delimited fields
/// and a non-empty last field.
pub open spec fn mem_line_ok(line: Seq<char>) -> bool {
    count_char(line, ' ') >= 5 && last_field(line, ' ').len() > 0
}

/// The mapped paths a sequence of mapping lines contributes, in line order.
pub open spec fn mem_info_of_lines(lines: Seq<Seq<char>>) -> Seq<Seq<char>>
    decreases lines.len(),
{
    if lines.len() == 0 {
        Seq::empty()
    } else {
        let pre = mem_info_of_lines(lines.drop_last());
        if mem_line_ok(lines.last()) {
            pre.push(last_field(lines.last(), ' '))
        } else {
            pre
        }
    }
}

/// The mapped paths of a mapping listing: each line's last space-delimited
/// field, for lines with at least six fields and a non-empty last field.
pub open spec fn mem_info_spec(content: Seq<char>) -> Seq<Seq<char>> {
    mem_info_of_lines(split_lines_spec(content))
}

/// Parse a mapping listing into its mapped paths.
pub fn get_mem_info(content: &str) -> (r: Vec<String>)
    ensures
        seq_views(r@) == mem_info_spec(content@),
{
    let lines = split_lines(content);
    let ghost lv = seq_views(lines@);
    let mut r: Vec<String> = Vec::new();
    let n = lines.len();
    let mut i: usize = 0;
    proof {
        assert(lv.subrange(0, 0) =~= Seq::<Seq<char>>::empty());
        assert(seq_views(r@) =~= mem_info_of_lines(lv.subrange(0, 0)));
    }
    while i < n
        invariant
            i <= n,
            n == lines@.len(),
            lv == seq_views(lines@),
            seq_views(r@) == mem_info_of_lines(lv.subrange(0, i as int)),
        decreases n - i,
    {
        proof {
            assert(lv.subrange(0, i + 1).drop_last() =~= lv.subrange(0, i as int));
            assert(lv.subrange(0, i + 1).last() == lv[i as int]);
            assert(lv[i as int] == lines@[i as int]@);
        }
        let ghost rpre = r@;
        let line = &lines[i];
        let cnt = count_char_exec(line.as_str(), ' ');
        if cnt >= 5 {
            let ln = line.as_str().unicode_len();
            let lf = match rfind_char(line.as_str(), ' ') {
                Some(p) => {
                    proof {
                        crate::strutil::lemma_last_index(line@, ' ');
                    }
                    line.as_str().substring_char(p + 1, ln)
                },
                None => {
                    proof {
                        assert(line@.subrange(0, line@.len() as int) =~= line@);
                    }
                    line.as_str()
                },
            };
            proof {
                assert(lf@ == last_field(lv[i as int], ' '));
            }
            if lf.unicode_len() > 0 {
                r.push(lf.to_owned());
                proof {
                    assert(seq_views(r@) =~= seq_views(rpre).push(lf@));
                }
            }
        }
        i += 1;
    }
    proof {
        assert(lv.subrange(0, n as int) =~= lv);
    }
    r
}

// ---------------------------------------------------------------------------
// The files one process entry contributes
// ---------------------------------------------------------------------------

/// The identifiers of a sequence of descriptor entries, in order.
pub open spec fn fd_ids(es: Seq<FdEntryV>) -> Seq<Seq<char>> {
    Seq::new(es.len(), |i: int| fd_identifier(es[i]))
}

/// Every file identifier one process entry contributes under a filter: its
/// mapped paths when the filter includes memory maps, then its descriptor
/// identifiers unless the filter asks for memory maps only.
pub open spec fn files_of_entry(filter: FiletypeV, e: ProcEntryV) -> Seq<Seq<char>> {
    let mem = if filter.includes_mem_spec() {
        match e.maps_content {
            Some(c) => mem_info_spec(c),
            None => Seq::empty(),
        }
    } else {
        Seq::<Seq<char>>::empty()
    };
    let fds = if filter.includes_fd_spec() {
        fd_ids(e.fd_entries)
    } else {
        Seq::<Seq<char>>::empty()
    };
    mem + fds
}

/// Enumerate the file identifiers one process entry contributes.
pub fn get_files_info(target_filetype: &Filetype, entry: &ProcEntry) -> (r: Vec<String>)
    ensures
        seq_views(r@) == files_of_entry(target_filetype@, entry@),
{
    let ghost memv: Seq<Seq<char>> = if target_filetype@.includes_mem_spec() {
        match entry@.maps_content {
            Some(c) => mem_info_spec(c),
            None => Seq::empty(),
        }
    } else {
        Seq::empty()
    };
    let mut r: Vec<String> = Vec::new();
    if target_filetype.includes_mem() {
        match &entry.maps_content {
            Some(c) => {
                let mut m = get_mem_info(c.as_str());
                r.append(&mut m);
            },
            None => {},
        }
    }
    proof {
        assert(seq_views(r@) =~= memv);
    }
    if target_filetype.includes_fd() {
        let ghost fdv = fd_ids(entry@.fd_entries);
        let n = entry.fd_entries.len();
        let mut k: usize = 0;
        proof {
            assert(seq_views(r@) =~= memv + fdv.subrange(0, 0));
        }
        while k < n
            invariant
                k <= n,
                n == entry.fd_entries@.len(),
                fdv == fd_ids(entry@.fd_entries),
                memv == seq_views(r@).subrange(0, seq_views(r@).len() - k),
                seq_views(r@) == memv + fdv.subrange(0, k as int),
            decreases n - k,
        {
            let ghost rpre = r@;
            let fe = &entry.fd_entries[k];
            let id = match &fe.resolved {
                Some(t) => t.clone(),
                None => fe.raw.clone(),
            };
            proof {
                assert(entry@.fd_entries[k as int] == entry.fd_entries@[k as int]@);
                assert(id@ == fd_identifier(entry@.fd_entries[k as int]));
                assert(fdv[k as int] == fd_identifier(entry@.fd_entries[k as int]));
            }
            r.push(id);
            proof {
                assert(seq_views(r@) =~= seq_views(rpre).push(fdv[k as int]));
                assert(seq_views(r@) =~= memv + fdv.subrange(0, k + 1));
                assert(memv =~= seq_views(r@).subrange(0, seq_views(r@).len() - (k + 1)));
            }
            k += 1;
        }
        proof {
            assert(fdv.subrange(0, n as int) =~= fdv);
        }
    } else {
        proof {
            assert(seq_views(r@) =~= memv + Seq::<Seq<char>>::empty());
        }
    }
    r
}

// ---------------------------------------------------------------------------
// The whole scan
// ---------------------------------------------------------------------------

/// The name one process entry contributes: its stat record's name, when the
/// record could be read and parsed.
pub open spec fn name_of_entry(e: ProcEntryV) -> Option<Seq<char>> {
    match e.stat_content {
        Some(c) => stat_name_spec(c),
        None => None,
    }
}

/// What a scan of a sequence of process entries yields: for every entry
/// whose path names a process id, that id sent to the entry's name and its
/// set of file identifiers; an entry with an invalid final component
/// contributes nothing; a later entry for the same id wins.
pub open spec fn scan_map_spec(filter: FiletypeV, procs: Seq<ProcEntryV>) -> Map<
    u64,
    (Option<Seq<char>>, Set<Seq<char>>),
>
    decreases procs.len(),
{
    if procs.len() == 0 {
        Map::empty()
    } else {
        let m = scan_map_spec(filter, procs.drop_last());
        match pid_of_path(procs.last().path) {
            Some(pid) => m.insert(
                pid,
                (name_of_entry(procs.last()), files_of_entry(filter, procs.last()).to_set()),
            ),
            None => m,
        }
    }
}

/// Whether a forward map realizes a scan result: same processes, and each
/// with the scanned name and set of files.
pub open spec fn models_scan(
    m: Map<u64, ProcInfoV>,
    sm: Map<u64, (Option<Seq<char>>, Set<Seq<char>>)>,
) -> bool {
    &&& m.dom() == sm.dom()
    &&& forall|p: u64| #[trigger]
        m.dom().contains(p) ==> m[p].name == sm[p].0 && m[p].files.to_set() == sm[p].1
}

impl Data {
    /// Build the index from everything read for the listed process entries,
    /// under a filter. Entries whose final path component is not a valid
    /// unsigned integer are silently skipped; a process whose records could
    /// not be read yields a degraded record, never a failure. Nothing is
    /// inverted yet.
    pub fn lsof(target_filetype: &Filetype, procs: &Vec<ProcEntry>) -> (r: Data)
        ensures
            r.wf(),
            r.inverted() is None,
            models_scan(r.forward(), scan_map_spec(target_filetype@, proc_entry_views(procs@))),
    {
        let ghost pv = proc_entry_views(procs@);
        let ghost ftv = target_filetype@;
        let mut map = PidMap::new();
        let n = procs.len();
        let mut i: usize = 0;
        proof {
            assert(pv.subrange(0, 0) =~= Seq::<ProcEntryV>::empty());
            assert(map.as_map().dom() =~= scan_map_spec(ftv, pv.subrange(0, 0)).dom());
        }
        while i < n
            invariant
                i <= n,
                n == procs@.len(),
                pv == proc_entry_views(procs@),
                ftv == target_filetype@,
                map.wf(),
                models_scan(map.as_map(), scan_map_spec(ftv, pv.subrange(0, i as int))),
            decreases n - i,
        {
            let ghost smpre = scan_map_spec(ftv, pv.subrange(0, i as int));
            proof {
                assert(pv.subrange(0, i + 1).drop_last() =~= pv.subrange(0, i as int));
                assert(pv.subrange(0, i + 1).last() == pv[i as int]);
                assert(pv[i as int] == procs@[i as int]@);
            }
            let entry = &procs[i];
            let pid_opt = extract_pid_from_path(entry.path.as_str()).1;
            match pid_opt {
                Some(pid) => {
                    let name = match &entry.stat_content {
                        Some(c) => get_pid_name(c.as_str()),
                        None => None,
                    };
                    let files = get_files_info(target_filetype, entry);
                    let fileset = FileSet::from_vec(&files);
                    let ghost mpre = map.as_map();
                    let info = ProcInfo { name, files: fileset };
                    let ghost iv = info@;
                    map.insert(pid, info);
                    proof {
                        let sm = scan_map_spec(ftv, pv.subrange(0, i + 1));
                        assert(sm == smpre.insert(
                            pid,
                            (name_of_entry(pv[i as int]), files_of_entry(ftv, pv[i as int]).to_set()),
                        ));
                        assert(iv.name == name_of_entry(pv[i as int]));
                        assert(iv.files.to_set() == files_of_entry(ftv, pv[i as int]).to_set());
                        assert(map.as_map().dom() =~= sm.dom());
                        assert forall|p: u64| #[trigger]
                            map.as_map().dom().contains(p) implies map.as_map()[p].name == sm[p].0
                            && map.as_map()[p].files.to_set() == sm[p].1 by {
                            if p != pid {
                                assert(mpre.dom().contains(p));
                            }
                        }
                    }
                },
                None => {
                    proof {
                        assert(scan_map_spec(ftv, pv.subrange(0, i + 1)) == smpre);
                    }
                },
            }
            i += 1;
        }
        proof {
            assert(pv.subrange(0, n as int) =~= pv);
        }
        Data::from_forward(map)
    }

    /// Build the unfiltered index.
    pub fn lsof_all(procs: &Vec<ProcEntry>) -> (r: Data)
        ensures
            r.wf(),
            r.inverted() is None,
            models_scan(r.forward(), scan_map_spec(FiletypeV::All, proc_entry_views(procs@))),
    {
        Data::lsof(&Filetype::All, procs)
    }
}

/// The synthetic identifier of a socket given its inode or port text.
pub fn socket_path(port: &str) -> (r: String)
    ensures
        r@ == "socket:["@ + port@ + "]"@,
{
    "socket:[".to_owned().concat(port).concat("]")
}

// ---------------------------------------------------------------------------
// Laws of the scan
// ---------------------------------------------------------------------------

/// Completeness: a process entry whose id no later entry reuses appears in
/// the scan result under its id, with exactly the name and files a direct
/// read of that entry gives.
pub proof fn lemma_scan_completeness(
    filter: FiletypeV,
    procs: Seq<ProcEntryV>,
    i: int,
    pid: u64,
)
    requires
        0 <= i < procs.len(),
        pid_of_path(procs[i].path) == Some(pid),
        forall|j: int| i < j < procs.len() ==> pid_of_path((#[trigger] procs[j]).path) != Some(pid),
    ensures
        scan_map_spec(filter, procs).dom().contains(pid),
        scan_map_spec(filter, procs)[pid].0 == name_of_entry(procs[i]),
        scan_map_spec(filter, procs)[pid].1 == files_of_entry(filter, procs[i]).to_set(),
    decreases procs.len(),
{
    if i < procs.len() - 1 {
        let t = procs.drop_last();
        assert(t[i] == procs[i]);
        assert forall|j: int|
            i < j < t.len() implies pid_of_path((#[trigger] t[j]).path) != Some(pid) by {
            assert(t[j] == procs[j]);
        }
        lemma_scan_completeness(filter, t, i, pid);
        assert(pid_of_path(procs[procs.len() - 1].path) != Some(pid));
    }
}

/// Completeness at the index: in a forward map built from a listing, a
/// process entry whose id no later entry reuses stands under its id with
/// exactly the name and the files a direct read of that entry gives.
pub proof fn lemma_lsof_completeness(
    fwd: Map<u64, ProcInfoV>,
    filter: FiletypeV,
    procs: Seq<ProcEntryV>,
    i: int,
    pid: u64,
)
    requires
        models_scan(fwd, scan_map_spec(filter, procs)),
        0 <= i < procs.len(),
        pid_of_path(procs[i].path) == Some(pid),
        forall|j: int| i < j < procs.len() ==> pid_of_path((#[trigger] procs[j]).path) != Some(pid),
    ensures
        fwd.dom().contains(pid),
        fwd[pid].name == name_of_entry(procs[i]),
        fwd[pid].files.to_set() == files_of_entry(filter, procs[i]).to_set(),
{
    lemma_scan_completeness(filter, procs, i, pid);
}

/// A process id no listed entry denotes is absent from the scan result.
pub proof fn lemma_unlisted_pid_absent(filter: FiletypeV, procs: Seq<ProcEntryV>, pid: u64)
    requires
        forall|i: int| 0 <= i < procs.len() ==> pid_of_path((#[trigger] procs[i]).path) != Some(pid),
    ensures
        !scan_map_spec(filter, procs).dom().contains(pid),
    decreases procs.len(),
{
    if procs.len() > 0 {
        let t = procs.drop_last();
        assert forall|i: int|
            0 <= i < t.len() implies pid_of_path((#[trigger] t[i]).path) != Some(pid) by {
            assert(t[i] == procs[i]);
        }
        lemma_unlisted_pid_absent(filter, t, pid);
        assert(pid_of_path(procs[procs.len() - 1].path) != Some(pid));
    }
}

/// Filter correctness, memory maps only: under the memory-maps-only filter
/// an entry contributes exactly its mapping listing's accepted last fields,
/// and no descriptor identifiers.
pub proof fn lemma_mem_only_filter(e: ProcEntryV)
    ensures
        files_of_entry(FiletypeV::Mem, e) == (match e.maps_content {
            Some(c) => mem_info_spec(c),
            None => Seq::<Seq<char>>::empty(),
        }),
{
    let mem = match e.maps_content {
        Some(c) => mem_info_spec(c),
        None => Seq::<Seq<char>>::empty(),
    };
    assert(files_of_entry(FiletypeV::Mem, e) =~= mem);
}

/// Filter correctness, descriptors: under any filter that enumerates
/// descriptors, every descriptor's identifier is among the entry's files.
pub proof fn lemma_fd_included(filter: FiletypeV, e: ProcEntryV, k: int)
    requires
        filter.includes_fd_spec(),
        0 <= k < e.fd_entries.len(),
    ensures
        files_of_entry(filter, e).to_set().contains(fd_identifier(e.fd_entries[k])),
{
    let all = files_of_entry(filter, e);
    let mem = if filter.includes_mem_spec() {
        match e.maps_content {
            Some(c) => mem_info_spec(c),
            None => Seq::<Seq<char>>::empty(),
        }
    } else {
        Seq::<Seq<char>>::empty()
    };
    assert(all[mem.len() + k] == fd_identifier(e.fd_entries[k]));
}

/// Degradation, not crash: an entry whose process vanished before anything
/// could be read still yields a record — with no name and no files.
pub proof fn lemma_degraded_entry(filter: FiletypeV, e: ProcEntryV)
    requires
        e.stat_content is None,
        e.maps_content is None,
        e.fd_entries.len() == 0,
    ensures
        name_of_entry(e) is None,
        files_of_entry(filter, e) == Seq::<Seq<char>>::empty(),
{
    assert(files_of_entry(filter, e) =~= Seq::<Seq<char>>::empty());
}

} // verus!
