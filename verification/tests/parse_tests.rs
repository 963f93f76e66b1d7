use lsof::filetype::Filetype;
use lsof::interner::Interner;
use lsof::procstat::{get_pid_cmdline, get_pid_info_status, get_pid_name, get_pid_name_status};
use lsof::records::Entry;
use lsof::scan::{extract_pid_from_path, socket_path};
use lsof::strutil::{parse_u64, split_once, str_eq, trim, u64_to_string};

#[test]
fn filetype_tokens_parse() {
    assert!(matches!(Filetype::from_str(""), Ok(Filetype::All)));
    assert!(matches!(Filetype::from_str("all"), Ok(Filetype::All)));
    assert!(matches!(Filetype::from_str("mem"), Ok(Filetype::Mem)));
    assert!(matches!(Filetype::from_str("socket"), Ok(Filetype::Socket)));
    assert!(matches!(Filetype::from_str("file"), Ok(Filetype::File)));
    match Filetype::from_str(".so") {
        Ok(Filetype::Extension(ext)) => assert_eq!(ext, "so"),
        other => panic!("expected an extension, got {:?}", other),
    }
    match Filetype::from_str("..tar") {
        Ok(Filetype::Extension(ext)) => assert_eq!(ext, "tar"),
        other => panic!("expected an extension, got {:?}", other),
    }
    assert!(Filetype::from_str("bogus").is_err());
}

#[test]
fn filetype_inclusion_flags() {
    assert!(Filetype::All.includes_mem());
    assert!(Filetype::All.includes_socket());
    assert!(Filetype::All.includes_file());
    assert!(Filetype::All.includes_fd());
    assert!(Filetype::Mem.includes_mem());
    assert!(!Filetype::Mem.includes_fd());
    assert!(!Filetype::Socket.includes_mem());
    assert!(Filetype::Socket.includes_fd());
    assert!(!Filetype::File.includes_socket());
    assert!(matches!(Filetype::default(), Filetype::All));
}

#[test]
fn stat_record_name_between_parentheses() {
    assert_eq!(
        get_pid_name("123 (bash) S 1 123 123 0 -1").as_deref(),
        Some("bash")
    );
    assert_eq!(
        get_pid_name("  7 (kworker/0:1) I 2 0 0  ").as_deref(),
        Some("kworker/0:1")
    );
    assert_eq!(get_pid_name("123 bash S"), None);
    assert_eq!(get_pid_name("123 (bash S"), None);
    assert_eq!(get_pid_name(""), None);
}

#[test]
fn status_block_key_values() {
    let content = "Name:\tbash\nUmask:\t0022\nState:\tS (sleeping)\n";
    let map = get_pid_info_status(content);
    assert_eq!(map.get("Name").map(|s| s.as_str()), Some("bash"));
    assert_eq!(map.get("Umask").map(|s| s.as_str()), Some("0022"));
    assert_eq!(map.get("State").map(|s| s.as_str()), Some("S (sleeping)"));
    assert!(map.get("Missing").is_none());
    assert_eq!(get_pid_name_status(content).as_deref(), Some("bash"));
    assert_eq!(get_pid_name_status("nothing here"), None);
}

#[test]
fn cmdline_after_first_space() {
    assert_eq!(
        get_pid_cmdline("/usr/bin/tail -f /var/log/syslog").as_deref(),
        Some("-f /var/log/syslog")
    );
    assert_eq!(get_pid_cmdline("/usr/bin/true"), None);
}

#[test]
fn entry_extension_after_last_dot() {
    let e = |file: &str| Entry { pid: 1, proc: "p".to_string(), file: file.to_string() };
    assert_eq!(e("/lib/libc.so").get_ext(), "so");
    assert_eq!(e("archive.tar.gz").get_ext(), "gz");
    assert_eq!(e("noext").get_ext(), "");
    assert_eq!(e("trailing.").get_ext(), "");
}

#[test]
fn pid_extraction_from_listing_paths() {
    let (comp, pid) = extract_pid_from_path("/proc/123");
    assert_eq!(comp, "123");
    assert_eq!(pid, Some(123));
    let (comp, pid) = extract_pid_from_path("/proc/self");
    assert_eq!(comp, "self");
    assert_eq!(pid, None);
    let (comp, pid) = extract_pid_from_path("99");
    assert_eq!(comp, "99");
    assert_eq!(pid, Some(99));
    assert_eq!(extract_pid_from_path("/proc/").1, None);
}

#[test]
fn decimal_parsing_is_exact() {
    assert_eq!(parse_u64("0"), Some(0));
    assert_eq!(parse_u64("123"), Some(123));
    assert_eq!(parse_u64("18446744073709551615"), Some(u64::MAX));
    assert_eq!(parse_u64("18446744073709551616"), None);
    assert_eq!(parse_u64(""), None);
    assert_eq!(parse_u64("12a"), None);
    assert_eq!(parse_u64("-5"), None);
    assert_eq!(parse_u64(" 5"), None);
}

#[test]
fn decimal_formatting_round_trips() {
    assert_eq!(u64_to_string(0), "0");
    assert_eq!(u64_to_string(7), "7");
    assert_eq!(u64_to_string(12345), "12345");
    assert_eq!(u64_to_string(u64::MAX), "18446744073709551615");
    assert_eq!(parse_u64(&u64_to_string(909090)), Some(909090));
}

#[test]
fn socket_identifier_shape() {
    assert_eq!(socket_path("8080"), "socket:[8080]");
    assert_eq!(socket_path(""), "socket:[]");
}

#[test]
fn string_helpers() {
    assert!(str_eq("abc", "abc"));
    assert!(!str_eq("abc", "abd"));
    assert!(!str_eq("abc", "ab"));
    assert_eq!(trim("  spaced\t"), "spaced");
    assert_eq!(trim(""), "");
    assert_eq!(split_once("a:b:c", ':'), Some(("a", "b:c")));
    assert_eq!(split_once("abc", ':'), None);
}

#[test]
fn interner_hands_out_stable_handles() {
    let mut arena = Interner::new();
    let a = arena.intern("alpha");
    let b = arena.intern("beta");
    let a2 = arena.intern("alpha");
    assert_eq!(a, a2);
    assert_ne!(a, b);
    assert_eq!(arena.len(), 2);
    assert_eq!(arena.lookup(a).as_str(), "alpha");
    assert_eq!(arena.lookup(b).as_str(), "beta");
}
