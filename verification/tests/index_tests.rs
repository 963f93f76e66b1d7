use lsof::data::{Data, FindError};
use lsof::filetype::Filetype;
use lsof::scan::{FdEntry, ProcEntry};

fn fd(raw: &str, resolved: Option<&str>) -> FdEntry {
    FdEntry { raw: raw.to_string(), resolved: resolved.map(|s| s.to_string()) }
}

fn entry(path: &str, stat: Option<&str>, maps: Option<&str>, fds: Vec<FdEntry>) -> ProcEntry {
    ProcEntry {
        path: path.to_string(),
        stat_content: stat.map(|s| s.to_string()),
        maps_content: maps.map(|s| s.to_string()),
        fd_entries: fds,
    }
}

fn three_procs() -> Vec<ProcEntry> {
    vec![
        entry(
            "/proc/10",
            Some("10 (alpha) S 1 10 10"),
            None,
            vec![
                fd("/proc/10/fd/0", Some("/lib/libc.so")),
                fd("/proc/10/fd/1", Some("socket:[111]")),
            ],
        ),
        entry("/proc/20", Some("20 (beta) S 1 20 20"), None, vec![fd(
            "/proc/20/fd/0",
            Some("/lib/libc.so"),
        )]),
        entry("/proc/30", Some("30 (gamma) S 1 30 30"), None, vec![]),
    ]
}

fn ok_pids(found: Vec<Result<lsof::records::Proc, u64>>) -> Vec<u64> {
    let mut pids: Vec<u64> = found
        .into_iter()
        .map(|r| match r {
            Ok(p) => p.pid,
            Err(pid) => pid,
        })
        .collect();
    pids.sort_unstable();
    pids
}

#[test]
fn scenario_find_after_full_inversion() {
    let mut data = Data::lsof(&Filetype::All, &three_procs());
    data.invert_pid_to_files("");
    let holders = data.find("/lib/libc.so").unwrap();
    assert_eq!(ok_pids(holders), vec![10, 20]);
    let socket_holders = data.find("socket:[111]").unwrap();
    assert_eq!(ok_pids(socket_holders), vec![10]);
    assert_eq!(data.find("/not/present").unwrap_err(), FindError::NotFound);
}

#[test]
fn find_before_inversion_fails() {
    let data = Data::lsof(&Filetype::All, &three_procs());
    assert_eq!(data.find("/lib/libc.so").unwrap_err(), FindError::NotInverted);
}

#[test]
fn find_resolves_names() {
    let mut data = Data::lsof(&Filetype::All, &three_procs());
    data.invert_pid_to_files("");
    let holders = data.find("socket:[111]").unwrap();
    assert_eq!(holders.len(), 1);
    match &holders[0] {
        Ok(p) => {
            assert_eq!(p.pid, 10);
            assert_eq!(p.info.name.as_deref(), Some("alpha"));
        }
        Err(pid) => panic!("pid {} missing from the forward map", pid),
    }
}

#[test]
fn targeted_inversion_narrows_to_one_key() {
    let mut data = Data::lsof(&Filetype::All, &three_procs());
    data.invert_pid_to_files("/lib/libc.so");
    let inverted = data.files_to_pid().expect("inverted after invert");
    assert_eq!(inverted.len(), 1);
    let holders = data.find("/lib/libc.so").unwrap();
    assert_eq!(ok_pids(holders), vec![10, 20]);
    assert_eq!(data.find("socket:[111]").unwrap_err(), FindError::NotFound);
}

#[test]
fn reinversion_rebuilds() {
    let mut data = Data::lsof(&Filetype::All, &three_procs());
    data.invert_pid_to_files("/lib/libc.so");
    data.invert_pid_to_files("");
    let holders = data.find("socket:[111]").unwrap();
    assert_eq!(ok_pids(holders), vec![10]);
}

#[test]
fn into_files_to_pid_inverts_everything() {
    let data = Data::lsof(&Filetype::All, &three_procs());
    let inverted = data.into_files_to_pid();
    let libc = inverted.get("/lib/libc.so").expect("libc key");
    assert_eq!(libc.pids.len(), 2);
    assert!(libc.pids.contains(10));
    assert!(libc.pids.contains(20));
    assert!(inverted.get("/missing").is_none());
}

#[test]
fn non_process_entries_are_skipped() {
    let procs = vec![
        entry("/proc/self", Some("self (x) S"), None, vec![]),
        entry("/proc/42", Some("42 (answer) S"), None, vec![]),
    ];
    let data = Data::lsof(&Filetype::All, &procs);
    let map = data.pid_to_files();
    assert_eq!(map.len(), 1);
    assert!(map.get(42).is_some());
}

#[test]
fn vanished_process_degrades_to_empty_record() {
    let procs = vec![entry("/proc/99", None, None, vec![])];
    let data = Data::lsof(&Filetype::All, &procs);
    let record = data.pid_to_files().get(99).expect("record for 99");
    assert!(record.name.is_none());
    assert_eq!(record.files.len(), 0);
}

#[test]
fn unresolved_descriptor_falls_back_to_raw_path() {
    let procs = vec![entry("/proc/7", None, None, vec![fd("/proc/7/fd/3", None)])];
    let mut data = Data::lsof(&Filetype::All, &procs);
    data.invert_pid_to_files("");
    let holders = data.find("/proc/7/fd/3").unwrap();
    assert_eq!(ok_pids(holders), vec![7]);
}

const MAPS: &str = "7f0000000000-7f0000001000 r-xp 00000000 08:01 131 /usr/lib/libz.so\n\
7f0000002000-7f0000003000 rw-p 00000000 00:00 0 \n\
malformed line\n\
7f0000004000-7f0000005000 r--p 00000000 08:01 7 /etc/hosts\n";

#[test]
fn mem_filter_takes_only_mapping_paths() {
    let procs = vec![entry("/proc/5", None, Some(MAPS), vec![fd(
        "/proc/5/fd/0",
        Some("/dev/null"),
    )])];
    let mut data = Data::lsof(&Filetype::Mem, &procs);
    let record = data.pid_to_files().get(5).expect("record");
    assert_eq!(record.files.len(), 2);
    assert!(record.files.contains("/usr/lib/libz.so"));
    assert!(record.files.contains("/etc/hosts"));
    assert!(!record.files.contains("/dev/null"));
    data.invert_pid_to_files("");
    assert_eq!(data.find("/dev/null").unwrap_err(), FindError::NotFound);
}

#[test]
fn all_filter_takes_mappings_and_descriptors() {
    let procs = vec![entry("/proc/5", None, Some(MAPS), vec![fd(
        "/proc/5/fd/0",
        Some("/dev/null"),
    )])];
    let data = Data::lsof(&Filetype::All, &procs);
    let record = data.pid_to_files().get(5).expect("record");
    assert_eq!(record.files.len(), 3);
    assert!(record.files.contains("/dev/null"));
    assert!(record.files.contains("/usr/lib/libz.so"));
}

#[test]
fn socket_filter_takes_descriptors_not_mappings() {
    let procs = vec![entry("/proc/5", None, Some(MAPS), vec![fd(
        "/proc/5/fd/0",
        Some("socket:[5]"),
    )])];
    let data = Data::lsof(&Filetype::Socket, &procs);
    let record = data.pid_to_files().get(5).expect("record");
    assert_eq!(record.files.len(), 1);
    assert!(record.files.contains("socket:[5]"));
}

#[test]
fn get_mem_info_filters_short_and_anonymous_lines() {
    let got = lsof::scan::get_mem_info(MAPS);
    assert_eq!(got, vec!["/usr/lib/libz.so".to_string(), "/etc/hosts".to_string()]);
}

#[test]
fn duplicate_identifiers_are_stored_once() {
    let procs = vec![entry("/proc/3", None, None, vec![
        fd("/proc/3/fd/0", Some("/tmp/x")),
        fd("/proc/3/fd/1", Some("/tmp/x")),
    ])];
    let data = Data::lsof(&Filetype::All, &procs);
    let record = data.pid_to_files().get(3).expect("record");
    assert_eq!(record.files.len(), 1);
}

#[test]
fn later_entry_for_same_pid_wins() {
    let procs = vec![
        entry("/proc/8", Some("8 (old) S"), None, vec![]),
        entry("/proc/8", Some("8 (new) S"), None, vec![]),
    ];
    let data = Data::lsof(&Filetype::All, &procs);
    assert_eq!(data.pid_to_files().len(), 1);
    let record = data.pid_to_files().get(8).expect("record");
    assert_eq!(record.name.as_deref(), Some("new"));
}

#[test]
fn flattened_counts_every_pair() {
    let data = Data::lsof(&Filetype::All, &three_procs());
    let mut total = 0;
    let map = data.pid_to_files();
    for i in 0..map.len() {
        total += map.index_pair(i).1.files.len();
    }
    let flat = data.flattened();
    assert_eq!(flat.len(), total);
    assert_eq!(flat.len(), 3);
}

#[test]
fn flattened_carries_names_and_placeholder() {
    let procs = vec![entry("/proc/4", None, None, vec![fd("/proc/4/fd/0", Some("/tmp/y"))])];
    let data = Data::lsof(&Filetype::All, &procs);
    let flat = data.flattened();
    assert_eq!(flat.len(), 1);
    assert_eq!(flat[0].pid, 4);
    assert_eq!(flat[0].proc, "<noname>");
    assert_eq!(flat[0].file, "/tmp/y");
}

#[test]
fn fold_by_pid_counts_files_per_process() {
    let data = Data::lsof(&Filetype::All, &three_procs());
    let rows = data.fold_by_pid_w_count();
    assert_eq!(rows.len(), 3);
    let total: usize = rows.iter().map(|r| r.2).sum();
    assert_eq!(total, data.flattened().len());
    let row10 = rows.iter().find(|r| r.0 == 10).expect("row for 10");
    assert_eq!(row10.1.as_deref(), Some("alpha"));
    assert_eq!(row10.2, 2);
}

#[test]
fn fold_by_proc_name_groups_and_counts() {
    let procs = vec![
        entry("/proc/10", Some("10 (worker) S"), None, vec![fd("/proc/10/fd/0", Some("/a"))]),
        entry("/proc/20", Some("20 (worker) S"), None, vec![
            fd("/proc/20/fd/0", Some("/b")),
            fd("/proc/20/fd/1", Some("/c")),
        ]),
        entry("/proc/30", None, None, vec![fd("/proc/30/fd/0", Some("/d"))]),
    ];
    let data = Data::lsof(&Filetype::All, &procs);
    let groups = data.fold_by_proc_name_w_count();
    assert_eq!(groups.len(), 2);
    let worker = groups.get("worker").expect("worker group");
    assert_eq!(worker.min_pid, 10);
    assert_eq!(worker.npids, 2);
    assert_eq!(worker.nfiles, 3);
    let nameless = groups.get("30").expect("pid-keyed group");
    assert_eq!(nameless.min_pid, 30);
    assert_eq!(nameless.npids, 1);
    assert_eq!(nameless.nfiles, 1);
    let mut total = 0;
    for i in 0..groups.len() {
        total += groups.index_pair(i).1.nfiles;
    }
    assert_eq!(total, data.flattened().len());
}

#[test]
fn proc_to_files_unions_file_sets() {
    let procs = vec![
        entry("/proc/10", Some("10 (worker) S"), None, vec![fd("/proc/10/fd/0", Some("/shared"))]),
        entry("/proc/20", Some("20 (worker) S"), None, vec![
            fd("/proc/20/fd/0", Some("/shared")),
            fd("/proc/20/fd/1", Some("/own")),
        ]),
    ];
    let data = Data::lsof(&Filetype::All, &procs);
    let groups = data.into_proc_to_files();
    assert_eq!(groups.len(), 1);
    let worker = groups.get("worker").expect("worker group");
    assert_eq!(worker.pids, vec![10, 20]);
    assert_eq!(worker.files.len(), 2);
    assert!(worker.files.contains("/shared"));
    assert!(worker.files.contains("/own"));
}

#[test]
fn lsof_all_equals_unfiltered_scan() {
    let data = Data::lsof_all(&three_procs());
    assert_eq!(data.pid_to_files().len(), 3);
    let record = data.pid_to_files().get(10).expect("record");
    assert_eq!(record.files.len(), 2);
}

#[test]
fn empty_scan_gives_empty_index() {
    let mut data = Data::lsof(&Filetype::All, &Vec::new());
    assert_eq!(data.pid_to_files().len(), 0);
    assert!(data.files_to_pid().is_none());
    data.invert_pid_to_files("");
    assert_eq!(data.find("/anything").unwrap_err(), FindError::NotFound);
    assert_eq!(data.flattened().len(), 0);
}
