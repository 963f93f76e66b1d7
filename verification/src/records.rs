//! The record types of the index: what one process holds, which processes
//! hold one file, and the flattened (pid, name, file) entry.

use vstd::prelude::*;
use crate::sets::{FileSet, PidSet};
use crate::strutil::{last_field, last_index, lemma_contains_last, rsplit_once};

verus! {

/// The view of an `Option<String>`.
pub open spec fn opt_str_view(o: Option<String>) -> Option<Seq<char>> {
    match o {
        Some(s) => Some(s@),
        None => None,
    }
}

/// Abstract value of a [`ProcInfo`].
pub ghost struct ProcInfoV {
    pub name: Option<Seq<char>>,
    pub files: Seq<Seq<char>>,
}

impl ProcInfoV {
    pub open spec fn wf(self) -> bool {
        self.files.no_duplicates()
    }

    /// The set of file identifiers this process holds.
    pub open spec fn files_set(self) -> Set<Seq<char>> {
        self.files.to_set()
    }
}

/// What one process holds: its display name, when one could be read, and the
/// set of file identifiers it currently references.
#[derive(Debug)]
pub struct ProcInfo {
    pub name: Option<String>,
    pub files: FileSet,
}

impl View for ProcInfo {
    type V = ProcInfoV;

    open spec fn view(&self) -> ProcInfoV {
        ProcInfoV { name: opt_str_view(self.name), files: self.files@ }
    }
}

impl ProcInfo {
    pub open spec fn wf(self) -> bool {
        self@.wf()
    }
}

impl Default for ProcInfo {
    fn default() -> (r: Self)
        ensures
            r@.name is None,
            r@.files == Seq::<Seq<char>>::empty(),
            r.wf(),
    {
        ProcInfo { name: None, files: FileSet::new() }
    }
}

impl Clone for ProcInfo {
    fn clone(&self) -> (r: Self)
        ensures
            r@ == self@,
    {
        let name = match &self.name {
            Some(n) => Some(n.clone()),
            None => None,
        };
        ProcInfo { name, files: self.files.clone() }
    }
}

/// Which processes hold one file.
#[derive(Debug)]
pub struct FdInfo {
    pub pids: PidSet,
}

impl View for FdInfo {
    type V = Seq<u64>;

    open spec fn view(&self) -> Seq<u64> {
        self.pids@
    }
}

impl FdInfo {
    pub open spec fn wf(self) -> bool {
        self@.no_duplicates()
    }

    /// The set of holders.
    pub open spec fn pid_set(self) -> Set<u64> {
        self@.to_set()
    }
}

impl Clone for FdInfo {
    fn clone(&self) -> (r: Self)
        ensures
            r@ == self@,
    {
        FdInfo { pids: self.pids.clone() }
    }
}

/// Abstract value of a [`Proc`].
pub ghost struct ProcV {
    pub pid: u64,
    pub info: ProcInfoV,
}

/// A process id together with its record, as `find` returns it.
#[derive(Debug)]
pub struct Proc {
    pub pid: u64,
    pub info: ProcInfo,
}

impl View for Proc {
    type V = ProcV;

    open spec fn view(&self) -> ProcV {
        ProcV { pid: self.pid, info: self.info@ }
    }
}

/// Abstract value of an [`Fd`].
pub ghost struct FdV {
    pub name: Seq<char>,
    pub info: Seq<u64>,
}

/// A file identifier together with its holders.
#[derive(Debug)]
pub struct Fd {
    pub info: FdInfo,
    pub name: String,
}

impl View for Fd {
    type V = FdV;

    open spec fn view(&self) -> FdV {
        FdV { name: self.name@, info: self.info@ }
    }
}

/// The display name of a process record: the read name, or a placeholder.
pub open spec fn display_name_spec(name: Option<Seq<char>>) -> Seq<char> {
    match name {
        Some(n) => n,
        None => "<noname>"@,
    }
}

/// The display name of a process record, as an owned string.
pub fn display_name(name: &Option<String>) -> (r: String)
    ensures
        r@ == display_name_spec(opt_str_view(*name)),
{
    match name {
        Some(n) => n.clone(),
        None => "<noname>".to_owned(),
    }
}

/// Abstract value of an [`Entry`].
pub ghost struct EntryV {
    pub pid: u64,
    pub proc: Seq<char>,
    pub file: Seq<char>,
}

/// One (process id, process name, file identifier) triple of the flattened
/// listing.
#[derive(Debug)]
pub struct Entry {
    pub pid: u64,
    pub proc: String,
    pub file: String,
}

impl View for Entry {
    type V = EntryV;

    open spec fn view(&self) -> EntryV {
        EntryV { pid: self.pid, proc: self.proc@, file: self.file@ }
    }
}

/// The views of a sequence of entries.
pub open spec fn entry_views(v: Seq<Entry>) -> Seq<EntryV> {
    Seq::new(v.len(), |i: int| v[i]@)
}

/// The extension of a file identifier: what follows the last `'.'`, empty
/// when there is none.
pub open spec fn ext_of(file: Seq<char>) -> Seq<char> {
    if last_index(file, '.') >= 0 {
        last_field(file, '.')
    } else {
        Seq::empty()
    }
}

impl Entry {
    /// The extension of this entry's file identifier.
    pub fn get_ext(&self) -> (r: &str)
        ensures
            r@ == ext_of(self.file@),
    {
        proof {
            lemma_contains_last(self.file@, '.');
        }
        match rsplit_once(self.file.as_str(), '.') {
            Some(p) => p.1,
            None => {
                proof {
                    reveal_strlit("");
                    assert(""@ =~= Seq::<char>::empty());
                }
                ""
            },
        }
    }

    /// The flattened entries of one process record, one per held file, each
    /// carrying the record's display name.
    pub fn from_proc(pid: u64, info: &ProcInfo) -> (r: Vec<Entry>)
        ensures
            entry_views(r@) == entries_of(pid, info@),
    {
        let nm = display_name(&info.name);
        let n = info.files.len();
        let mut r: Vec<Entry> = Vec::new();
        let mut i: usize = 0;
        while i < n
            invariant
                i <= n,
                n == info.files@.len(),
                nm@ == display_name_spec(info@.name),
                r@.len() == i,
                forall|j: int| 0 <= j < i ==> #[trigger] r@[j]@ == entries_of(pid, info@)[j],
            decreases n - i,
        {
            let file = info.files.index(i).clone();
            r.push(Entry { pid, proc: nm.clone(), file });
            i += 1;
        }
        proof {
            assert(entry_views(r@) =~= entries_of(pid, info@));
        }
        r
    }
}

/// The flattened entries a process record contributes.
pub open spec fn entries_of(pid: u64, info: ProcInfoV) -> Seq<EntryV> {
    Seq::new(
        info.files.len(),
        |i: int| EntryV { pid, proc: display_name_spec(info.name), file: info.files[i] },
    )
}

} // verus!
