//! The rules of the walk: what is left out, what is read, and how it is counted.

use vstd::prelude::*;
use vstd::string::StringExecFns;
use crate::count::{count_text, human_count};
use crate::mask::{bytes_text, text_of_bytes};
use crate::text::{decimal, decimal_text, same_text, texts};

verus! {

/// Folders to leave out wherever they are: build results, caches, the data of tools.
pub const NAME_SKIP: [&'static str; 14] = [
    ".git",
    "node_modules",
    "__pycache__",
    ".venv",
    "venv",
    ".tox",
    ".pytest_cache",
    ".mypy_cache",
    ".idea",
    ".vscode",
    "target",
    ".gradle",
    ".m2",
    "Pods",
];

/// Files above this size are mapped into memory, and not read.
pub const MAP_ABOVE: u64 = 1_048_576;

/// The number of workers that are started without being asked for.
pub const MAX_WORKERS: usize = 64;

/// The number of processors, where it is not known.
pub const DEFAULT_CPUS: usize = 4;

/// Progress is shown once for so many files.
pub const MILESTONE: usize = 10_000;

/// The text that `str::to_lowercase` makes of a text.
pub uninterp spec fn lower_text(text: Seq<char>) -> Seq<char>;

/// A text in lower case.
///
/// Calls `str::to_lowercase`. Its result is only named here.
#[verifier::external_body]
fn lower_case(text: &str) -> (r: String)
    ensures
        r@ == lower_text(text@),
{
    text.to_lowercase()
}

/// A path as it is compared with the paths to leave out, given its text.
pub open spec fn normal_text(text: Seq<char>, windows: bool) -> Seq<char> {
    if windows {
        lower_text(text)
    } else {
        text
    }
}

/// A path as it is compared with the paths to leave out, given its text: on Windows the case of
/// letters does not matter.
pub fn normalize_text(text: &str, windows: bool) -> (r: String)
    ensures
        r@ == normal_text(text@, windows),
{
    if windows {
        lower_case(text)
    } else {
        text.to_owned()
    }
}

/// A path as it is compared with the paths to leave out. What is not UTF-8 in it is replaced.
pub fn normalize(path: &[u8], windows: bool) -> (r: String)
    ensures
        r@ == normal_text(bytes_text(path@), windows),
{
    let text: String = text_of_bytes(path);
    normalize_text(text.as_str(), windows)
}

/// All the paths to leave out, as they are compared.
pub open spec fn normal_texts(paths: Seq<Seq<char>>, windows: bool) -> Seq<Seq<char>> {
    paths.map_values(|path: Seq<char>| normal_text(path, windows))
}

/// All the paths to leave out, as they are compared.
pub fn normalize_all(paths: &Vec<String>, windows: bool) -> (r: Vec<String>)
    ensures
        texts(r@) == normal_texts(texts(paths@), windows),
{
    let mut r: Vec<String> = Vec::new();
    let mut i: usize = 0;
    while i < paths.len()
        invariant
            i <= paths@.len(),
            r@.len() == i,
            forall|k: int| 0 <= k < i ==> (#[trigger] r@[k])@ == normal_text(paths@[k]@, windows),
        decreases paths@.len() - i,
    {
        r.push(normalize_text(paths[i].as_str(), windows));
        i += 1;
    }
    proof {
        assert(texts(r@) =~= normal_texts(texts(paths@), windows));
    }
    r
}

/// A folder of this name is left out.
pub open spec fn name_skipped(name: Seq<char>) -> bool {
    exists|k: int| 0 <= k < NAME_SKIP@.len() && (#[trigger] NAME_SKIP@[k])@ == name
}

/// What is met on a walk is kept: what the walk starts from in any case, and below that what
/// neither its path nor its name leaves out. `path` is the path as it is compared, and `name`
/// the last component, if it is text.
pub open spec fn entry_kept(
    depth: nat,
    path: Seq<char>,
    name: Option<&str>,
    skip: Seq<Seq<char>>,
) -> bool {
    depth == 0 || !skip.contains(path) && match name {
        Some(name) => !name_skipped(name@),
        None => true,
    }
}

fn is_name_skipped(name: &str) -> (r: bool)
    ensures
        r == name_skipped(name@),
{
    let mut k: usize = 0;
    while k < NAME_SKIP.len()
        invariant
            k <= NAME_SKIP@.len(),
            forall|m: int| 0 <= m < k ==> (#[trigger] NAME_SKIP@[m])@ != name@,
        decreases NAME_SKIP@.len() - k,
    {
        if same_text(NAME_SKIP[k], name) {
            proof {
                assert(NAME_SKIP@[k as int]@ == name@);
            }
            return true;
        }
        k += 1;
    }
    false
}

/// What is met on a walk is kept.
pub fn keep_entry(depth: usize, path: &str, name: Option<&str>, skip: &Vec<String>) -> (r: bool)
    ensures
        r == entry_kept(depth as nat, path@, name, texts(skip@)),
{
    if depth == 0 {
        return true;
    }
    let mut i: usize = 0;
    while i < skip.len()
        invariant
            i <= skip@.len(),
            forall|k: int| 0 <= k < i ==> (#[trigger] skip@[k])@ != path@,
            depth > 0,
        decreases skip@.len() - i,
    {
        if same_text(skip[i].as_str(), path) {
            proof {
                assert(texts(skip@)[i as int] == path@);
            }
            return false;
        }
        i += 1;
    }
    proof {
        assert(!texts(skip@).contains(path@)) by {
            if texts(skip@).contains(path@) {
                let k = choose|k: int| 0 <= k < texts(skip@).len() && texts(skip@)[k] == path@;
                assert(skip@[k]@ == path@);
            }
        }
    }
    match name {
        Some(name) => !is_name_skipped(name),
        None => true,
    }
}

/// What a walk starts from is never left out.
pub proof fn law_roots_are_kept(path: Seq<char>, name: Option<&str>, skip: Seq<Seq<char>>)
    ensures
        entry_kept(0, path, name, skip),
{
}

/// Leaving out more paths never brings anything back.
pub proof fn law_more_skips_keep_less(
    depth: nat,
    path: Seq<char>,
    name: Option<&str>,
    skip: Seq<Seq<char>>,
    more: Seq<Seq<char>>,
)
    requires
        forall|i: int| 0 <= i < skip.len() ==> more.contains(#[trigger] skip[i]),
        entry_kept(depth, path, name, more),
    ensures
        entry_kept(depth, path, name, skip),
{
    if depth > 0 && skip.contains(path) {
        let i = choose|i: int| 0 <= i < skip.len() && skip[i] == path;
        assert(more.contains(skip[i]));
    }
}

/// What to do with what is met on a walk.
#[derive(Clone, Copy, Debug, PartialEq, Eq, Structural)]
pub enum EntryAction {
    /// End the walk.
    Quit,
    /// Go on without a scan.
    Pass,
    /// Scan the file, and go on.
    Scan,
}

/// What to do with what is met on a walk: an interrupt ends the walk, and only files that can be
/// met and are no links are scanned.
pub fn entry_action(interrupted: bool, readable: bool, symlink: bool, is_file: bool) -> (r:
    EntryAction)
    ensures
        r == EntryAction::Quit <==> interrupted,
        r == EntryAction::Scan <==> !interrupted && readable && !symlink && is_file,
{
    if interrupted {
        EntryAction::Quit
    } else if !readable || symlink || !is_file {
        EntryAction::Pass
    } else {
        EntryAction::Scan
    }
}

/// How the bytes of a file are had.
#[derive(Clone, Copy, Debug, PartialEq, Eq, Structural)]
pub enum ReadPlan {
    /// Not at all.
    Pass,
    /// By reading them.
    Owned,
    /// By mapping them.
    Mapped,
}

/// How the bytes of a file are had. Empty files, those above the limit and what is no file are
/// passed over; of the others the large ones are mapped.
pub fn read_plan(is_file: bool, size: u64, max_bytes: u64) -> (r: ReadPlan)
    ensures
        r == ReadPlan::Pass <==> !is_file || size == 0 || size > max_bytes,
        r == ReadPlan::Mapped <==> is_file && MAP_ABOVE < size <= max_bytes,
        r == ReadPlan::Mapped <==> is_file && 1024 * 1024 < size <= max_bytes,
{
    if !is_file || size == 0 || size > max_bytes {
        ReadPlan::Pass
    } else if size > MAP_ABOVE {
        ReadPlan::Mapped
    } else {
        ReadPlan::Owned
    }
}

/// A size in megabytes, in bytes.
pub fn megabytes(n: u64) -> (r: u64)
    requires
        n * 1_048_576 <= u64::MAX,
    ensures
        r == n * 1_048_576,
        r == n * 1024 * 1024,
{
    n * 1_048_576
}

/// The number of processors, or a default where it is not known.
pub fn num_cpus(known: Option<usize>) -> (r: usize)
    ensures
        r == match known {
            Some(n) => n,
            None => DEFAULT_CPUS,
        },
        known is None ==> r == 4,
{
    match known {
        Some(n) => n,
        None => DEFAULT_CPUS,
    }
}

/// The number of workers that a walk has: what was asked for, or, where that is 0, one for each
/// processor up to a limit.
pub fn worker_threads(asked: usize, cpus: usize) -> (r: usize)
    ensures
        asked > 0 ==> r == asked,
        asked == 0 ==> r == if cpus < MAX_WORKERS {
            cpus
        } else {
            MAX_WORKERS
        },
        asked == 0 ==> r <= cpus && r <= 64 && (r == cpus || r == 64),
{
    if asked > 0 {
        asked
    } else if cpus < MAX_WORKERS {
        cpus
    } else {
        MAX_WORKERS
    }
}

/// The number of workers that is announced: what was asked for, or the number of processors.
pub fn announced_workers(asked: usize, cpus: usize) -> (r: usize)
    ensures
        r == if asked == 0 {
            cpus
        } else {
            asked
        },
{
    if asked == 0 {
        cpus
    } else {
        asked
    }
}

/// How far a walk is.
#[derive(Clone, Copy, Debug)]
pub struct ScanProgress {
    pub files_scanned: usize,
    pub files_with_hits: usize,
}

impl ScanProgress {
    pub fn new() -> (r: Self)
        ensures
            r.files_scanned == 0,
            r.files_with_hits == 0,
    {
        ScanProgress { files_scanned: 0, files_with_hits: 0 }
    }

    /// Counts a file that is about to be scanned. The count starts again behind the largest
    /// number.
    pub fn start_file(&mut self)
        ensures
            final(self).files_scanned == if old(self).files_scanned == usize::MAX {
                0
            } else {
                old(self).files_scanned + 1
            },
            final(self).files_with_hits == old(self).files_with_hits,
    {
        self.files_scanned = self.files_scanned.wrapping_add(1);
    }

    /// Counts a file with hits. The count starts again behind the largest number.
    pub fn found_hits(&mut self)
        ensures
            final(self).files_with_hits == if old(self).files_with_hits == usize::MAX {
                0
            } else {
                old(self).files_with_hits + 1
            },
            final(self).files_scanned == old(self).files_scanned,
    {
        self.files_with_hits = self.files_with_hits.wrapping_add(1);
    }

    /// The milestone that was reached since the last one, if there is one.
    pub fn milestone(&self, last: usize) -> (r: Option<usize>)
        ensures
            r == if self.files_scanned as nat / MILESTONE as nat > last {
                Some((self.files_scanned as nat / MILESTONE as nat) as usize)
            } else {
                None
            },
            r is Some <==> self.files_scanned >= 10_000 * (last + 1),
            r matches Some(reached) ==> 10_000 * reached <= self.files_scanned < 10_000 * (reached
                + 1),
    {
        let reached: usize = self.files_scanned / MILESTONE;
        if reached > last {
            Some(reached)
        } else {
            None
        }
    }

    /// How progress is shown.
    pub open spec fn message(self) -> Seq<char> {
        "  scan: "@ + count_text(self.files_scanned as nat) + " files scanned, "@ + decimal_text(
            self.files_with_hits as nat,
        ) + " with PANs"@
    }

    /// How progress is shown.
    pub fn text(&self) -> (r: String)
        ensures
            r@ == self.message(),
    {
        let mut text: String = "  scan: ".to_owned();
        text.append(human_count(self.files_scanned).as_str());
        text.append(" files scanned, ");
        text.append(decimal(self.files_with_hits as u64).as_str());
        text.append(" with PANs");
        text
    }
}

/// The names of the folders that are left out.
pub open spec fn folder_names() -> Seq<Seq<char>> {
    seq![
        ".git"@,
        "node_modules"@,
        "__pycache__"@,
        ".venv"@,
        "venv"@,
        ".tox"@,
        ".pytest_cache"@,
        ".mypy_cache"@,
        ".idea"@,
        ".vscode"@,
        "target"@,
        ".gradle"@,
        ".m2"@,
        "Pods"@,
    ]
}

/// Exactly these names are left out.
pub proof fn law_names_left_out(name: Seq<char>)
    ensures
        name_skipped(name) <==> folder_names().contains(name),
        folder_names().len() == 14,
{
    assert forall|k: int| 0 <= k < 14 implies (#[trigger] NAME_SKIP@[k])@ == folder_names()[k] by {}
    if name_skipped(name) {
        let k = choose|k: int| 0 <= k < NAME_SKIP@.len() && (#[trigger] NAME_SKIP@[k])@ == name;
        assert(folder_names()[k] == name);
    }
    if folder_names().contains(name) {
        let k = choose|k: int| 0 <= k < folder_names().len() && folder_names()[k] == name;
        assert(NAME_SKIP@[k]@ == name);
    }
}

/// Below its start a walk leaves out a path that is listed, whatever its name, and a name that is
/// listed, at whatever depth; it keeps everything else, and what has no name in text is judged by
/// its path alone.
pub proof fn law_what_a_walk_leaves_out(
    depth: nat,
    path: Seq<char>,
    name: &str,
    skip: Seq<Seq<char>>,
)
    requires
        depth > 0,
    ensures
        skip.contains(path) ==> !entry_kept(depth, path, Some(name), skip) && !entry_kept(
            depth,
            path,
            None,
            skip,
        ),
        folder_names().contains(name@) ==> !entry_kept(depth, path, Some(name), skip),
        !skip.contains(path) && !folder_names().contains(name@) ==> entry_kept(
            depth,
            path,
            Some(name),
            skip,
        ),
        !skip.contains(path) ==> entry_kept(depth, path, None, skip),
{
    law_names_left_out(name@);
}

/// Paths are compared as they are, but for Windows, where they are compared in lower case. A list
/// keeps its order.
pub proof fn law_only_windows_ignores_case(paths: Seq<Seq<char>>, i: int)
    requires
        0 <= i < paths.len(),
    ensures
        normal_text(paths[i], false) == paths[i],
        normal_text(paths[i], true) == lower_text(paths[i]),
        normal_texts(paths, false) == paths,
        normal_texts(paths, true).len() == paths.len(),
        normal_texts(paths, true)[i] == lower_text(paths[i]),
{
    assert(normal_texts(paths, false) =~= paths);
}

} // verus!
