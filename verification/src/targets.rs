//! Where to look, and where not to.

use vstd::prelude::*;
use vstd::string::{StrSliceExecFns, StringExecFns};
use crate::text::{owned, texts};

verus! {

/// How much of a machine to look at.
#[derive(Clone, Copy, Debug, PartialEq, Eq, Structural)]
pub enum Mode {
    /// The folders of the users, and logs.
    Quick,
    /// The whole disk.
    Complete,
}

impl Mode {
    pub open spec fn label(self) -> Seq<char> {
        match self {
            Mode::Quick => "Quick"@,
            Mode::Complete => "Complete"@,
        }
    }

    pub fn name(self) -> (r: &'static str)
        ensures
            r@ == self.label(),
    {
        match self {
            Mode::Quick => "Quick",
            Mode::Complete => "Complete",
        }
    }
}

/// The systems with presets.
#[derive(Clone, Copy, Debug, PartialEq, Eq, Structural)]
pub enum Os {
    Macos,
    Linux,
    Windows,
}

pub const MACOS_QUICK: [&'static str; 6] = [
    "/Users",
    "/var/log",
    "/Library/Logs",
    "/tmp",
    "/var/tmp",
    "/Users/Shared",
];

pub const LINUX_QUICK: [&'static str; 8] = [
    "/home",
    "/root",
    "/var/log",
    "/tmp",
    "/var/tmp",
    "/var/spool/mail",
    "/var/mail",
    "/var/www",
];

/// Below the root of the system drive.
pub const WINDOWS_QUICK: [&'static str; 6] = [
    "Users",
    "Windows\\Logs",
    "Windows\\Panther",
    "Windows\\Temp",
    "ProgramData",
    "inetpub\\logs",
];

/// The drives that a Windows machine may have.
pub const WINDOWS_DRIVES: [&'static str; 26] = [
    "A:\\", "B:\\", "C:\\", "D:\\", "E:\\", "F:\\", "G:\\", "H:\\", "I:\\", "J:\\", "K:\\",
    "L:\\", "M:\\", "N:\\", "O:\\", "P:\\", "Q:\\", "R:\\", "S:\\", "T:\\", "U:\\", "V:\\",
    "W:\\", "X:\\", "Y:\\", "Z:\\",
];

pub const ROOT: [&'static str; 1] = ["/"];

pub const MACOS_SKIP: [&'static str; 9] = [
    "/System",
    "/dev",
    "/.fseventsd",
    "/.Spotlight-V100",
    "/.DocumentRevisions-V100",
    "/.TemporaryItems",
    "/private/var/db/dyld",
    "/private/var/vm",
    "/Library/Caches/com.apple.dyld",
];

pub const LINUX_SKIP: [&'static str; 13] = [
    "/proc",
    "/sys",
    "/dev",
    "/run",
    "/var/lib/docker",
    "/var/lib/containerd",
    "/var/lib/lxcfs",
    "/snap",
    "/var/snap",
    "/var/cache",
    "/.snapshots",
    "/swap.img",
    "/swapfile",
];

/// Below the folder of the system.
pub const WINDOWS_ROOT_SKIP: [&'static str; 6] = [
    "\\WinSxS",
    "\\Installer",
    "\\Servicing",
    "\\System32\\DriverStore",
    "\\System32\\config",
    "\\assembly",
];

/// Below the system drive.
pub const WINDOWS_DRIVE_SKIP: [&'static str; 5] = [
    "\\$Recycle.Bin",
    "\\System Volume Information",
    "\\hiberfil.sys",
    "\\pagefile.sys",
    "\\swapfile.sys",
];

/// The texts of a list.
pub open spec fn list_of(list: Seq<&'static str>) -> Seq<Seq<char>> {
    list.map_values(|text: &'static str| text@)
}

/// The texts of a list, each behind a prefix.
pub open spec fn prefixed(prefix: Seq<char>, list: Seq<&'static str>) -> Seq<Seq<char>> {
    list.map_values(|text: &'static str| prefix + text@)
}

/// The text, or a default where there is none.
pub open spec fn text_or(text: Option<&str>, default: Seq<char>) -> Seq<char> {
    match text {
        Some(text) => text@,
        None => default,
    }
}

fn or_default<'a>(text: Option<&'a str>, default: &'a str) -> (r: &'a str)
    ensures
        r@ == text_or(text, default@),
{
    match text {
        Some(text) => text,
        None => default,
    }
}

/// Copies of the texts of a list, each behind a prefix.
fn owned_behind(prefix: &str, list: &[&'static str]) -> (r: Vec<String>)
    ensures
        texts(r@) == prefixed(prefix@, list@),
{
    let mut r: Vec<String> = Vec::new();
    let mut i: usize = 0;
    while i < list.len()
        invariant
            i <= list@.len(),
            r@.len() == i,
            forall|k: int| 0 <= k < i ==> (#[trigger] r@[k])@ == prefix@ + list@[k]@,
        decreases list@.len() - i,
    {
        let mut text: String = prefix.to_owned();
        text.append(list[i]);
        r.push(text);
        i += 1;
    }
    proof {
        assert(texts(r@) =~= prefixed(prefix@, list@));
    }
    r
}

/// The paths of a preset. The system drive is `C:` where it is not known.
pub open spec fn preset(os: Os, mode: Mode, system_drive: Option<&str>) -> Seq<Seq<char>> {
    match (os, mode) {
        (Os::Macos, Mode::Quick) => list_of(MACOS_QUICK@),
        (Os::Linux, Mode::Quick) => list_of(LINUX_QUICK@),
        (Os::Windows, Mode::Quick) => prefixed(
            text_or(system_drive, "C:"@) + "\\"@,
            WINDOWS_QUICK@,
        ),
        (Os::Windows, Mode::Complete) => list_of(WINDOWS_DRIVES@),
        (_, Mode::Complete) => list_of(ROOT@),
    }
}

/// The paths of a preset.
pub fn preset_paths(os: Os, mode: Mode, system_drive: Option<&str>) -> (r: Vec<String>)
    ensures
        texts(r@) == preset(os, mode, system_drive),
{
    match mode {
        Mode::Quick => match os {
            Os::Macos => owned(MACOS_QUICK.as_slice()),
            Os::Linux => owned(LINUX_QUICK.as_slice()),
            Os::Windows => {
                let mut base: String = or_default(system_drive, "C:").to_owned();
                base.append("\\");
                owned_behind(base.as_str(), WINDOWS_QUICK.as_slice())
            },
        },
        Mode::Complete => match os {
            Os::Windows => owned(WINDOWS_DRIVES.as_slice()),
            _ => owned(ROOT.as_slice()),
        },
    }
}

/// Only those paths of the preset count that are there. Elsewhere all of them do.
pub open spec fn must_be_there(os: Os, mode: Mode) -> bool {
    match os {
        Os::Macos => false,
        Os::Linux => mode == Mode::Quick,
        Os::Windows => true,
    }
}

/// The paths that are there.
pub open spec fn those_there(paths: Seq<Seq<char>>, there: Seq<bool>) -> Seq<Seq<char>>
    decreases paths.len(),
{
    if paths.len() == 0 {
        seq![]
    } else {
        let before = those_there(paths.drop_last(), there);
        if there[paths.len() - 1] {
            before.push(paths.last())
        } else {
            before
        }
    }
}

/// What is found below the folder where macOS mounts its volumes.
#[derive(Clone, Debug)]
pub struct Volume {
    pub path: String,
    /// The last component of the path, if it is text.
    pub name: Option<String>,
    pub is_dir: bool,
}

/// A volume to look at: a folder whose name does not start with a dot.
pub open spec fn visible(volume: Volume) -> bool {
    volume.is_dir && match volume.name {
        Some(name) => !(name@.len() > 0 && name@[0] == '.'),
        None => false,
    }
}

/// The paths of the volumes to look at.
pub open spec fn visible_paths(volumes: Seq<Volume>) -> Seq<Seq<char>>
    decreases volumes.len(),
{
    if volumes.len() == 0 {
        seq![]
    } else {
        let before = visible_paths(volumes.drop_last());
        if visible(volumes.last()) {
            before.push(volumes.last().path@)
        } else {
            before
        }
    }
}

/// The targets of a preset, given which of its paths are there and which volumes are mounted.
pub open spec fn targets_of(
    os: Os,
    mode: Mode,
    system_drive: Option<&str>,
    there: Seq<bool>,
    volumes: Seq<Volume>,
) -> Seq<Seq<char>> {
    let paths = preset(os, mode, system_drive);
    if must_be_there(os, mode) {
        those_there(paths, there)
    } else if os == Os::Macos && mode == Mode::Complete {
        paths + visible_paths(volumes)
    } else {
        paths
    }
}

fn is_visible(volume: &Volume) -> (r: bool)
    ensures
        r == visible(*volume),
{
    if !volume.is_dir {
        return false;
    }
    match &volume.name {
        Some(name) => if name.as_str().unicode_len() > 0 {
            name.as_str().get_char(0) != '.'
        } else {
            true
        },
        None => false,
    }
}

/// The targets of a preset. `there` says which of its paths exist, and `volumes` what is below
/// the folder where macOS mounts its volumes.
pub fn os_targets(
    os: Os,
    mode: Mode,
    system_drive: Option<&str>,
    there: &Vec<bool>,
    volumes: &Vec<Volume>,
) -> (r: Vec<String>)
    requires
        there@.len() == preset(os, mode, system_drive).len(),
    ensures
        texts(r@) == targets_of(os, mode, system_drive, there@, volumes@),
{
    let paths: Vec<String> = preset_paths(os, mode, system_drive);
    let all: bool = match os {
        Os::Macos => true,
        Os::Linux => match mode {
            Mode::Quick => false,
            Mode::Complete => true,
        },
        Os::Windows => false,
    };
    let ghost wanted = texts(paths@);
    let mut r: Vec<String> = Vec::new();
    let mut i: usize = 0;
    proof {
        assert(wanted.take(0) =~= seq![]);
        assert(texts(r@) =~= seq![]);
    }
    while i < paths.len()
        invariant
            i <= paths@.len() == there@.len(),
            wanted == texts(paths@),
            all ==> texts(r@) == wanted.take(i as int),
            !all ==> texts(r@) == those_there(wanted.take(i as int), there@),
        decreases paths@.len() - i,
    {
        let ghost before = texts(r@);
        proof {
            assert(wanted.take(i + 1).drop_last() =~= wanted.take(i as int));
            assert(wanted.take(i + 1) =~= wanted.take(i as int).push(wanted[i as int]));
        }
        if all || there[i] {
            r.push(paths[i].clone());
            proof {
                assert(texts(r@) =~= before.push(wanted[i as int]));
            }
        }
        i += 1;
    }
    proof {
        assert(wanted.take(i as int) =~= wanted);
    }
    let mounted: bool = match os {
        Os::Macos => match mode {
            Mode::Quick => false,
            Mode::Complete => true,
        },
        _ => false,
    };
    if mounted {
        let ghost head = texts(r@);
        let mut k: usize = 0;
        proof {
            assert(volumes@.take(0) =~= seq![]);
            assert(head + visible_paths(volumes@.take(0)) =~= head);
        }
        while k < volumes.len()
            invariant
                k <= volumes@.len(),
                texts(r@) == head + visible_paths(volumes@.take(k as int)),
            decreases volumes@.len() - k,
        {
            let ghost before = texts(r@);
            proof {
                assert(volumes@.take(k + 1).drop_last() =~= volumes@.take(k as int));
            }
            if is_visible(&volumes[k]) {
                r.push(volumes[k].path.clone());
                proof {
                    assert(texts(r@) =~= before.push(volumes@[k as int].path@));
                    assert(texts(r@) =~= head + visible_paths(volumes@.take(k + 1)));
                }
            }
            k += 1;
        }
        proof {
            assert(volumes@.take(k as int) =~= volumes@);
        }
    }
    r
}

/// The paths that a preset leaves out. On Windows they are below the folder of the system, by
/// default `C:\Windows`, and below the system drive, by default `C:`.
pub open spec fn skipped(
    os: Os,
    system_root: Option<&str>,
    system_drive: Option<&str>,
) -> Seq<Seq<char>> {
    match os {
        Os::Macos => list_of(MACOS_SKIP@),
        Os::Linux => list_of(LINUX_SKIP@),
        Os::Windows => prefixed(text_or(system_root, "C:\\Windows"@), WINDOWS_ROOT_SKIP@) + prefixed(
            text_or(system_drive, "C:"@),
            WINDOWS_DRIVE_SKIP@,
        ),
    }
}

/// The paths that a preset leaves out.
pub fn os_skip_paths(
    os: Os,
    system_root: Option<&str>,
    system_drive: Option<&str>,
) -> (r: Vec<String>)
    ensures
        texts(r@) == skipped(os, system_root, system_drive),
{
    match os {
        Os::Macos => owned(MACOS_SKIP.as_slice()),
        Os::Linux => owned(LINUX_SKIP.as_slice()),
        Os::Windows => {
            let mut r: Vec<String> = owned_behind(
                or_default(system_root, "C:\\Windows"),
                WINDOWS_ROOT_SKIP.as_slice(),
            );
            let mut more: Vec<String> = owned_behind(
                or_default(system_drive, "C:"),
                WINDOWS_DRIVE_SKIP.as_slice(),
            );
            let ghost first = r@;
            let ghost second = more@;
            r.append(&mut more);
            proof {
                assert(r@ =~= first + second);
                assert(texts(r@) =~= texts(first) + texts(second));
            }
            r
        },
    }
}

/// Every target comes from the preset or is a volume: nothing else is looked at.
pub proof fn law_targets_come_from_the_preset(
    os: Os,
    mode: Mode,
    system_drive: Option<&str>,
    there: Seq<bool>,
    volumes: Seq<Volume>,
    i: int,
)
    requires
        there.len() == preset(os, mode, system_drive).len(),
        0 <= i < targets_of(os, mode, system_drive, there, volumes).len(),
    ensures
        ({
            let target = targets_of(os, mode, system_drive, there, volumes)[i];
            ||| exists|k: int|
                0 <= k < there.len() && (#[trigger] preset(os, mode, system_drive)[k]) == target
                    && (must_be_there(os, mode) ==> there[k])
            ||| os == Os::Macos && mode == Mode::Complete && exists|k: int|
                0 <= k < volumes.len() && visible(#[trigger] volumes[k]) && volumes[k].path@
                    == target
        }),
{
    let paths = preset(os, mode, system_drive);
    let targets = targets_of(os, mode, system_drive, there, volumes);
    if must_be_there(os, mode) {
        let k = lemma_those_there(paths, there, i);
        assert(paths[k] == targets[i]);
    } else if i < paths.len() {
        assert(paths[i] == targets[i]);
    } else {
        let k = lemma_visible_paths(volumes, i - paths.len());
        assert(visible(volumes[k]));
    }
}

proof fn lemma_those_there(paths: Seq<Seq<char>>, there: Seq<bool>, i: int) -> (k: int)
    requires
        there.len() >= paths.len(),
        0 <= i < those_there(paths, there).len(),
    ensures
        0 <= k < paths.len(),
        there[k],
        paths[k] == those_there(paths, there)[i],
    decreases paths.len(),
{
    let fewer = paths.drop_last();
    if i < those_there(fewer, there).len() {
        lemma_those_there(fewer, there, i)
    } else {
        paths.len() - 1
    }
}

proof fn lemma_visible_paths(volumes: Seq<Volume>, i: int) -> (k: int)
    requires
        0 <= i < visible_paths(volumes).len(),
    ensures
        0 <= k < volumes.len(),
        visible(volumes[k]),
        volumes[k].path@ == visible_paths(volumes)[i],
    decreases volumes.len(),
{
    let fewer = volumes.drop_last();
    if i < visible_paths(fewer).len() {
        lemma_visible_paths(fewer, i)
    } else {
        volumes.len() - 1
    }
}

/// The presets of Linux, whatever drives there are.
pub proof fn law_linux_presets(system_drive: Option<&str>)
    ensures
        preset(Os::Linux, Mode::Quick, system_drive) == seq![
            "/home"@,
            "/root"@,
            "/var/log"@,
            "/tmp"@,
            "/var/tmp"@,
            "/var/spool/mail"@,
            "/var/mail"@,
            "/var/www"@,
        ],
        preset(Os::Linux, Mode::Complete, system_drive) == seq!["/"@],
{
    assert(preset(Os::Linux, Mode::Quick, system_drive) =~= seq![
        "/home"@,
        "/root"@,
        "/var/log"@,
        "/tmp"@,
        "/var/tmp"@,
        "/var/spool/mail"@,
        "/var/mail"@,
        "/var/www"@,
    ]);
    assert(preset(Os::Linux, Mode::Complete, system_drive) =~= seq!["/"@]);
}

/// The presets of macOS, whatever drives there are.
pub proof fn law_macos_presets(system_drive: Option<&str>)
    ensures
        preset(Os::Macos, Mode::Quick, system_drive) == seq![
            "/Users"@,
            "/var/log"@,
            "/Library/Logs"@,
            "/tmp"@,
            "/var/tmp"@,
            "/Users/Shared"@,
        ],
        preset(Os::Macos, Mode::Complete, system_drive) == seq!["/"@],
{
    assert(preset(Os::Macos, Mode::Quick, system_drive) =~= seq![
        "/Users"@,
        "/var/log"@,
        "/Library/Logs"@,
        "/tmp"@,
        "/var/tmp"@,
        "/Users/Shared"@,
    ]);
    assert(preset(Os::Macos, Mode::Complete, system_drive) =~= seq!["/"@]);
}

/// The quick preset of Windows is on the system drive, whichever it is.
pub proof fn law_windows_presets(drive: &str)
    ensures
        preset(Os::Windows, Mode::Quick, Some(drive)) == seq![
            drive@ + "\\"@ + "Users"@,
            drive@ + "\\"@ + "Windows\\Logs"@,
            drive@ + "\\"@ + "Windows\\Panther"@,
            drive@ + "\\"@ + "Windows\\Temp"@,
            drive@ + "\\"@ + "ProgramData"@,
            drive@ + "\\"@ + "inetpub\\logs"@,
        ],
        drive@ == "C:"@ ==> preset(Os::Windows, Mode::Quick, None) == preset(
            Os::Windows,
            Mode::Quick,
            Some(drive),
        ),
{
    assert(preset(Os::Windows, Mode::Quick, Some(drive)) =~= seq![
        drive@ + "\\"@ + "Users"@,
        drive@ + "\\"@ + "Windows\\Logs"@,
        drive@ + "\\"@ + "Windows\\Panther"@,
        drive@ + "\\"@ + "Windows\\Temp"@,
        drive@ + "\\"@ + "ProgramData"@,
        drive@ + "\\"@ + "inetpub\\logs"@,
    ]);
}

/// The complete preset of Windows are the roots of all drives from A to Z.
pub proof fn law_windows_drives(system_drive: Option<&str>, i: int)
    requires
        0 <= i < 26,
    ensures
        preset(Os::Windows, Mode::Complete, system_drive).len() == 26,
        preset(Os::Windows, Mode::Complete, system_drive)[i] == seq![
            (65 + i) as char,
            ':',
            '\\',
        ],
{
    reveal_strlit("A:\\");
    reveal_strlit("B:\\");
    reveal_strlit("C:\\");
    reveal_strlit("D:\\");
    reveal_strlit("E:\\");
    reveal_strlit("F:\\");
    reveal_strlit("G:\\");
    reveal_strlit("H:\\");
    reveal_strlit("I:\\");
    reveal_strlit("J:\\");
    reveal_strlit("K:\\");
    reveal_strlit("L:\\");
    reveal_strlit("M:\\");
    reveal_strlit("N:\\");
    reveal_strlit("O:\\");
    reveal_strlit("P:\\");
    reveal_strlit("Q:\\");
    reveal_strlit("R:\\");
    reveal_strlit("S:\\");
    reveal_strlit("T:\\");
    reveal_strlit("U:\\");
    reveal_strlit("V:\\");
    reveal_strlit("W:\\");
    reveal_strlit("X:\\");
    reveal_strlit("Y:\\");
    reveal_strlit("Z:\\");
    let root = preset(Os::Windows, Mode::Complete, system_drive)[i];
    assert(root == WINDOWS_DRIVES@[i]@);
    assert(root =~= seq![(65 + i) as char, ':', '\\']);
}

/// What a scan with a preset leaves out on Linux and on macOS.
pub proof fn law_unix_skips(system_root: Option<&str>, system_drive: Option<&str>)
    ensures
        skipped(Os::Linux, system_root, system_drive) == seq![
            "/proc"@,
            "/sys"@,
            "/dev"@,
            "/run"@,
            "/var/lib/docker"@,
            "/var/lib/containerd"@,
            "/var/lib/lxcfs"@,
            "/snap"@,
            "/var/snap"@,
            "/var/cache"@,
            "/.snapshots"@,
            "/swap.img"@,
            "/swapfile"@,
        ],
        skipped(Os::Macos, system_root, system_drive) == seq![
            "/System"@,
            "/dev"@,
            "/.fseventsd"@,
            "/.Spotlight-V100"@,
            "/.DocumentRevisions-V100"@,
            "/.TemporaryItems"@,
            "/private/var/db/dyld"@,
            "/private/var/vm"@,
            "/Library/Caches/com.apple.dyld"@,
        ],
{
    assert(skipped(Os::Linux, system_root, system_drive) =~= seq![
        "/proc"@,
        "/sys"@,
        "/dev"@,
        "/run"@,
        "/var/lib/docker"@,
        "/var/lib/containerd"@,
        "/var/lib/lxcfs"@,
        "/snap"@,
        "/var/snap"@,
        "/var/cache"@,
        "/.snapshots"@,
        "/swap.img"@,
        "/swapfile"@,
    ]);
    assert(skipped(Os::Macos, system_root, system_drive) =~= seq![
        "/System"@,
        "/dev"@,
        "/.fseventsd"@,
        "/.Spotlight-V100"@,
        "/.DocumentRevisions-V100"@,
        "/.TemporaryItems"@,
        "/private/var/db/dyld"@,
        "/private/var/vm"@,
        "/Library/Caches/com.apple.dyld"@,
    ]);
}

/// What a scan with a preset leaves out on Windows, wherever the system is.
pub proof fn law_windows_skips(root: &str, drive: &str)
    ensures
        skipped(Os::Windows, Some(root), Some(drive)) == seq![
            root@ + "\\WinSxS"@,
            root@ + "\\Installer"@,
            root@ + "\\Servicing"@,
            root@ + "\\System32\\DriverStore"@,
            root@ + "\\System32\\config"@,
            root@ + "\\assembly"@,
            drive@ + "\\$Recycle.Bin"@,
            drive@ + "\\System Volume Information"@,
            drive@ + "\\hiberfil.sys"@,
            drive@ + "\\pagefile.sys"@,
            drive@ + "\\swapfile.sys"@,
        ],
        root@ == "C:\\Windows"@ ==> skipped(Os::Windows, None, Some(drive)) == skipped(
            Os::Windows,
            Some(root),
            Some(drive),
        ),
        drive@ == "C:"@ ==> skipped(Os::Windows, Some(root), None) == skipped(
            Os::Windows,
            Some(root),
            Some(drive),
        ),
{
    assert(skipped(Os::Windows, Some(root), Some(drive)) =~= seq![
        root@ + "\\WinSxS"@,
        root@ + "\\Installer"@,
        root@ + "\\Servicing"@,
        root@ + "\\System32\\DriverStore"@,
        root@ + "\\System32\\config"@,
        root@ + "\\assembly"@,
        drive@ + "\\$Recycle.Bin"@,
        drive@ + "\\System Volume Information"@,
        drive@ + "\\hiberfil.sys"@,
        drive@ + "\\pagefile.sys"@,
        drive@ + "\\swapfile.sys"@,
    ]);
}

/// Which paths are there is judged one by one: those of two lists are those of the first and
/// those of the second, and of one path it is that path or nothing.
pub proof fn law_paths_are_judged_one_by_one(
    a: Seq<Seq<char>>,
    b: Seq<Seq<char>>,
    there_a: Seq<bool>,
    there_b: Seq<bool>,
    path: Seq<char>,
    there: bool,
)
    requires
        a.len() == there_a.len(),
        b.len() == there_b.len(),
    ensures
        those_there(a + b, there_a + there_b) == those_there(a, there_a) + those_there(b, there_b),
        those_there(seq![path], seq![there]) == if there {
            seq![path]
        } else {
            seq![]
        },
    decreases b.len(),
{
    assert(seq![path].drop_last() =~= Seq::<Seq<char>>::empty());
    let none = those_there(seq![path].drop_last(), seq![there]);
    assert(none =~= Seq::<Seq<char>>::empty());
    assert(those_there(seq![path], seq![there]) =~= if there {
        seq![path]
    } else {
        seq![]
    });
    if b.len() == 0 {
        assert(a + b =~= a);
        assert(there_a + there_b =~= there_a);
        assert(those_there(a, there_a) + those_there(b, there_b) =~= those_there(a, there_a));
    } else {
        let fewer = b.drop_last();
        let fewer_there = there_b.drop_last();
        law_paths_are_judged_one_by_one(a, fewer, there_a, fewer_there, path, there);
        assert((a + b).drop_last() =~= a + fewer);
        lemma_more_flags(a + fewer, there_a + fewer_there, there_a + there_b);
        lemma_more_flags(fewer, fewer_there, there_b);
        assert(those_there(a + b, there_a + there_b) =~= those_there(a, there_a) + those_there(
            b,
            there_b,
        ));
    }
}

proof fn lemma_more_flags(paths: Seq<Seq<char>>, there: Seq<bool>, more: Seq<bool>)
    requires
        paths.len() <= there.len() <= more.len(),
        forall|i: int| 0 <= i < there.len() ==> there[i] == #[trigger] more[i],
    ensures
        those_there(paths, there) == those_there(paths, more),
    decreases paths.len(),
{
    if paths.len() > 0 {
        lemma_more_flags(paths.drop_last(), there, more);
        assert(there[paths.len() - 1] == more[paths.len() - 1]);
    }
}

/// A volume is looked at if it is a folder with a name that is text and does not start with a
/// dot, and volumes are judged one by one.
pub proof fn law_volumes_are_judged_one_by_one(volumes: Seq<Volume>, volume: Volume)
    ensures
        visible_paths(volumes.push(volume)) == visible_paths(volumes) + (if volume.is_dir
            && volume.name is Some && !seq!['.'].is_prefix_of(volume.name->0@) {
            seq![volume.path@]
        } else {
            seq![]
        }),
        visible_paths(Seq::<Volume>::empty()) == Seq::<Seq<char>>::empty(),
{
    assert(volumes.push(volume).drop_last() =~= volumes);
    if volume.name is Some {
        let name = volume.name->0@;
        if name.len() > 0 && name[0] == '.' {
            assert(name.subrange(0, 1) =~= seq!['.']);
        }
        if seq!['.'].is_prefix_of(name) {
            assert(seq!['.'][0] == name[0]);
        }
    }
    assert(visible_paths(volumes.push(volume)) =~= visible_paths(volumes) + (if visible(volume) {
        seq![volume.path@]
    } else {
        seq![]
    }));
    assert(visible_paths(Seq::<Volume>::empty()) =~= Seq::<Seq<char>>::empty());
}

/// Which targets a preset has: on Linux and Windows the paths that are there, but the whole disk
/// on Linux in any case; on macOS all paths, and with the whole disk the volumes behind them.
pub proof fn law_targets_of_each_system(
    mode: Mode,
    system_drive: Option<&str>,
    there: Seq<bool>,
    volumes: Seq<Volume>,
)
    ensures
        targets_of(Os::Linux, Mode::Quick, system_drive, there, volumes) == those_there(
            preset(Os::Linux, Mode::Quick, system_drive),
            there,
        ),
        targets_of(Os::Linux, Mode::Complete, system_drive, there, volumes) == seq!["/"@],
        targets_of(Os::Macos, Mode::Quick, system_drive, there, volumes) == preset(
            Os::Macos,
            Mode::Quick,
            system_drive,
        ),
        targets_of(Os::Macos, Mode::Complete, system_drive, there, volumes) == seq!["/"@]
            + visible_paths(volumes),
        targets_of(Os::Windows, mode, system_drive, there, volumes) == those_there(
            preset(Os::Windows, mode, system_drive),
            there,
        ),
{
    law_linux_presets(system_drive);
    law_macos_presets(system_drive);
}

} // verus!
