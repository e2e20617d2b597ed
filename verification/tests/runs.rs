use panscan::order::FilePath;
use panscan::plan::{listing, plan, run_skip_paths, start, Start, Target};
use panscan::targets::{os_skip_paths, os_targets, preset_paths, Mode, Os, Volume};
use panscan::walk::{
    announced_workers, entry_action, keep_entry, megabytes, normalize, normalize_all,
    normalize_text, num_cpus, read_plan, worker_threads, EntryAction, ReadPlan, ScanProgress,
};

fn path(text: &str) -> FilePath {
    FilePath {
        location: text.to_owned(),
        components: text.split('/').map(|part| part.as_bytes().to_vec()).collect(),
    }
}

fn volume(name: &str, is_dir: bool) -> Volume {
    Volume { path: format!("/Volumes/{}", name), name: Some(name.to_owned()), is_dir }
}

#[test]
fn presets_of_linux() {
    let quick = preset_paths(Os::Linux, Mode::Quick, None);
    assert_eq!(
        quick,
        vec![
            "/home",
            "/root",
            "/var/log",
            "/tmp",
            "/var/tmp",
            "/var/spool/mail",
            "/var/mail",
            "/var/www"
        ]
    );
    assert_eq!(preset_paths(Os::Linux, Mode::Complete, None), vec!["/"]);
    let there = vec![true, false, true, true, false, false, false, true];
    assert_eq!(
        os_targets(Os::Linux, Mode::Quick, None, &there, &Vec::new()),
        vec!["/home", "/var/log", "/tmp", "/var/www"]
    );
    assert_eq!(
        os_targets(Os::Linux, Mode::Complete, None, &vec![false], &Vec::new()),
        vec!["/"]
    );
}

#[test]
fn presets_of_macos() {
    let quick = vec!["/Users", "/var/log", "/Library/Logs", "/tmp", "/var/tmp", "/Users/Shared"];
    assert_eq!(preset_paths(Os::Macos, Mode::Quick, None), quick);
    assert_eq!(
        os_targets(Os::Macos, Mode::Quick, None, &vec![false; 6], &vec![volume("x", true)]),
        quick
    );
    let volumes = vec![
        volume("Backup", true),
        volume(".hidden", true),
        volume("file", false),
        Volume { path: "/Volumes/odd".to_owned(), name: None, is_dir: true },
        volume("", true),
    ];
    assert_eq!(
        os_targets(Os::Macos, Mode::Complete, None, &vec![false], &volumes),
        vec!["/", "/Volumes/Backup", "/Volumes/"]
    );
}

#[test]
fn presets_of_windows() {
    assert_eq!(
        preset_paths(Os::Windows, Mode::Quick, None),
        vec![
            "C:\\Users",
            "C:\\Windows\\Logs",
            "C:\\Windows\\Panther",
            "C:\\Windows\\Temp",
            "C:\\ProgramData",
            "C:\\inetpub\\logs"
        ]
    );
    assert_eq!(preset_paths(Os::Windows, Mode::Quick, Some("E:"))[0], "E:\\Users");
    let drives = preset_paths(Os::Windows, Mode::Complete, None);
    let expected: Vec<String> =
        (b'A'..=b'Z').map(|letter| format!("{}:\\", letter as char)).collect();
    assert_eq!(drives, expected);
    let mut there = vec![false; 26];
    there[2] = true;
    there[25] = true;
    assert_eq!(
        os_targets(Os::Windows, Mode::Complete, None, &there, &Vec::new()),
        vec!["C:\\", "Z:\\"]
    );
}

#[test]
fn paths_to_leave_out() {
    assert_eq!(
        os_skip_paths(Os::Linux, None, None),
        vec![
            "/proc",
            "/sys",
            "/dev",
            "/run",
            "/var/lib/docker",
            "/var/lib/containerd",
            "/var/lib/lxcfs",
            "/snap",
            "/var/snap",
            "/var/cache",
            "/.snapshots",
            "/swap.img",
            "/swapfile"
        ]
    );
    assert_eq!(os_skip_paths(Os::Macos, None, None).len(), 9);
    assert_eq!(
        os_skip_paths(Os::Windows, None, None),
        vec![
            "C:\\Windows\\WinSxS",
            "C:\\Windows\\Installer",
            "C:\\Windows\\Servicing",
            "C:\\Windows\\System32\\DriverStore",
            "C:\\Windows\\System32\\config",
            "C:\\Windows\\assembly",
            "C:\\$Recycle.Bin",
            "C:\\System Volume Information",
            "C:\\hiberfil.sys",
            "C:\\pagefile.sys",
            "C:\\swapfile.sys"
        ]
    );
    let moved = os_skip_paths(Os::Windows, Some("D:\\Win"), Some("D:"));
    assert_eq!(moved[0], "D:\\Win\\WinSxS");
    assert_eq!(moved[6], "D:\\$Recycle.Bin");
}

#[test]
fn paths_as_they_are_compared() {
    assert_eq!(normalize(b"/Proc", false), "/Proc");
    assert_eq!(normalize(b"C:\\Windows\\WinSxS", true), "c:\\windows\\winsxs");
    assert_eq!(normalize(&[b'/', 0xff, b'A'], false), "/\u{fffd}A");
    assert_eq!(normalize(&[b'/', 0xff, b'A'], true), "/\u{fffd}a");
    assert_eq!(normalize_text("\u{c9}", true), "\u{e9}");
    assert_eq!(normalize_text("\u{c9}", false), "\u{c9}");
    let paths = vec!["A".to_owned(), "b".to_owned()];
    assert_eq!(normalize_all(&paths, true), vec!["a", "b"]);
    assert_eq!(normalize_all(&paths, false), vec!["A", "b"]);
}

#[test]
fn entries_that_are_kept() {
    let skip = vec!["/proc".to_owned(), "/sys".to_owned()];
    assert!(keep_entry(1, "/home", Some("home"), &skip));
    assert!(!keep_entry(1, "/proc", Some("proc"), &skip));
    assert!(keep_entry(2, "/home/proc", Some("proc"), &skip));
    assert!(!keep_entry(3, "/home/x/.git", Some(".git"), &skip));
    assert!(!keep_entry(3, "/home/x/node_modules", Some("node_modules"), &Vec::new()));
    assert!(keep_entry(3, "/home/x/Node_modules", Some("Node_modules"), &skip));
    assert!(keep_entry(1, "/odd", None, &skip));
}

#[test]
fn roots_are_kept_whatever_they_are() {
    let skip = vec!["/proc".to_owned()];
    assert!(keep_entry(0, "/proc", Some("proc"), &skip));
    assert!(keep_entry(0, "/x/.git", Some(".git"), &skip));
}

#[test]
fn more_paths_to_leave_out_keep_less() {
    let few = vec!["/proc".to_owned()];
    let many = vec!["/sys".to_owned(), "/proc".to_owned()];
    for text in ["/proc", "/sys", "/home"] {
        assert!(keep_entry(1, text, None, &few) || !keep_entry(1, text, None, &many));
    }
    assert!(keep_entry(1, "/sys", None, &few));
    assert!(!keep_entry(1, "/sys", None, &many));
}

#[test]
fn every_name_is_left_out() {
    for name in [
        ".git", "node_modules", "__pycache__", ".venv", "venv", ".tox", ".pytest_cache",
        ".mypy_cache", ".idea", ".vscode", "target", ".gradle", ".m2", "Pods",
    ] {
        assert!(!keep_entry(1, "/x", Some(name), &Vec::new()), "{}", name);
    }
}

#[test]
fn actions_on_entries() {
    assert_eq!(entry_action(true, true, false, true), EntryAction::Quit);
    assert_eq!(entry_action(true, false, true, false), EntryAction::Quit);
    assert_eq!(entry_action(false, true, false, true), EntryAction::Scan);
    assert_eq!(entry_action(false, false, false, true), EntryAction::Pass);
    assert_eq!(entry_action(false, true, true, true), EntryAction::Pass);
    assert_eq!(entry_action(false, true, false, false), EntryAction::Pass);
}

#[test]
fn plans_for_reading() {
    let limit = megabytes(500);
    assert_eq!(limit, 524_288_000);
    assert_eq!(read_plan(true, 0, limit), ReadPlan::Pass);
    assert_eq!(read_plan(false, 10, limit), ReadPlan::Pass);
    assert_eq!(read_plan(true, 1, limit), ReadPlan::Owned);
    assert_eq!(read_plan(true, 1_048_576, limit), ReadPlan::Owned);
    assert_eq!(read_plan(true, 1_048_577, limit), ReadPlan::Mapped);
    assert_eq!(read_plan(true, limit, limit), ReadPlan::Mapped);
    assert_eq!(read_plan(true, limit + 1, limit), ReadPlan::Pass);
}

#[test]
fn workers() {
    assert_eq!(num_cpus(Some(12)), 12);
    assert_eq!(num_cpus(None), 4);
    assert_eq!(worker_threads(0, 12), 12);
    assert_eq!(worker_threads(0, 128), 64);
    assert_eq!(worker_threads(100, 12), 100);
    assert_eq!(announced_workers(0, 128), 128);
    assert_eq!(announced_workers(3, 128), 3);
}

#[test]
fn progress_of_a_walk() {
    let mut progress = ScanProgress::new();
    assert_eq!(progress.text(), "  scan: 0 files scanned, 0 with PANs");
    progress.start_file();
    progress.start_file();
    progress.found_hits();
    assert_eq!((progress.files_scanned, progress.files_with_hits), (2, 1));
    let far = ScanProgress { files_scanned: 25_000, files_with_hits: 1_234 };
    assert_eq!(far.text(), "  scan: 25k files scanned, 1234 with PANs");
    assert_eq!(far.milestone(0), Some(2));
    assert_eq!(far.milestone(1), Some(2));
    assert_eq!(far.milestone(2), None);
    let mut last = ScanProgress { files_scanned: usize::MAX, files_with_hits: usize::MAX };
    last.start_file();
    last.found_hits();
    assert_eq!((last.files_scanned, last.files_with_hits), (0, 0));
}

#[test]
fn plans_of_runs() {
    let run = plan(None, None, "linux");
    assert_eq!(run.mode, Some(Mode::Quick));
    assert_eq!(run.label, "Quick (linux)");
    let run = plan(None, Some(Mode::Complete), "macos");
    assert_eq!(run.mode, Some(Mode::Complete));
    assert_eq!(run.label, "Complete (macos)");
    let run = plan(Some("/data"), None, "linux");
    assert_eq!(run.mode, None);
    assert_eq!(run.label, "custom: /data");
    let run = plan(Some("/data"), Some(Mode::Quick), "linux");
    assert_eq!(run.mode, Some(Mode::Quick));
    assert_eq!(run.label, "Quick (linux) + custom: /data");
}

#[test]
fn a_path_alone_leaves_nothing_out() {
    assert!(run_skip_paths(None, Os::Linux, None, None).is_empty());
    assert_eq!(
        run_skip_paths(Some(Mode::Quick), Os::Linux, None, None),
        os_skip_paths(Os::Linux, None, None)
    );
}

#[test]
fn starts_of_runs() {
    assert_eq!(start(true, false), Start::List);
    assert_eq!(start(true, true), Start::List);
    assert_eq!(start(false, false), Start::Refuse);
    assert_eq!(start(false, true), Start::Scan);
}

#[test]
fn listing_of_a_run() {
    let targets = vec![
        Target { text: "/home".to_owned(), there: true },
        Target { text: "/data".to_owned(), there: false },
    ];
    let skip = vec![path("/sys"), path("/dev"), path("/var/cache"), path("/var")];
    assert_eq!(
        listing(&targets, &skip),
        "\nTargets to walk:\n  [OK     ] /home\n  [MISSING] /data\n\
         \nSkip absolute paths:\n  /dev\n  /sys\n  /var\n  /var/cache\n\
         \nSkip directory names (at any depth):\n  .git\n  .gradle\n  .idea\n  .m2\n  \
         .mypy_cache\n  .pytest_cache\n  .tox\n  .venv\n  .vscode\n  Pods\n  __pycache__\n  \
         node_modules\n  target\n  venv\n"
    );
}
