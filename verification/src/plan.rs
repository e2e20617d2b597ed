//! What a run does, from what it was asked for.

use vstd::prelude::*;
use vstd::slice::slice_to_vec;
use vstd::string::StringExecFns;
use vstd::utf8::encode_utf8;
use crate::order::{in_row_order, keys_of, law_row_order_is_unique, sort_rows, FilePath, RowKey};
use crate::targets::{os_skip_paths, skipped, Mode, Os};
use crate::text::{pad, padded, texts};
use crate::walk::NAME_SKIP;

verus! {

/// The preset of a run. Without a path and without a mode it is the quick one.
pub open spec fn preset_mode(custom: bool, mode: Option<Mode>) -> Option<Mode> {
    if mode is None && !custom {
        Some(Mode::Quick)
    } else {
        mode
    }
}

/// A preset, and the system that it is for.
pub open spec fn preset_label(mode: Mode, os_name: Seq<char>) -> Seq<char> {
    mode.label() + " ("@ + os_name + ")"@
}

/// What a run looks at, in words.
pub open spec fn run_label(
    custom: Option<&str>,
    mode: Option<Mode>,
    os_name: Seq<char>,
) -> Seq<char> {
    match preset_mode(custom is Some, mode) {
        Some(mode) => match custom {
            Some(path) => preset_label(mode, os_name) + " + custom: "@ + path@,
            None => preset_label(mode, os_name),
        },
        None => match custom {
            Some(path) => "custom: "@ + path@,
            None => seq![],
        },
    }
}

/// What a run looks at.
#[derive(Clone, Debug)]
pub struct RunPlan {
    /// The preset, if there is one. A path that was asked for comes behind its targets.
    pub mode: Option<Mode>,
    /// The same in words.
    pub label: String,
}

fn preset_text(mode: Mode, os_name: &str) -> (r: String)
    ensures
        r@ == preset_label(mode, os_name@),
{
    let mut text: String = mode.name().to_owned();
    text.append(" (");
    text.append(os_name);
    text.append(")");
    text
}

/// What a run looks at: a path that was asked for, a preset, or both.
pub fn plan(custom: Option<&str>, mode: Option<Mode>, os_name: &str) -> (r: RunPlan)
    ensures
        r.mode == preset_mode(custom is Some, mode),
        r.label@ == run_label(custom, mode, os_name@),
{
    let chosen: Option<Mode> = match mode {
        Some(mode) => Some(mode),
        None => if custom.is_none() {
            Some(Mode::Quick)
        } else {
            None
        },
    };
    let label: String = match chosen {
        Some(mode) => {
            let mut text: String = preset_text(mode, os_name);
            match custom {
                Some(path) => {
                    text.append(" + custom: ");
                    text.append(path);
                },
                None => {},
            }
            text
        },
        None => match custom {
            Some(path) => {
                let mut text: String = "custom: ".to_owned();
                text.append(path);
                text
            },
            None => String::new(),
        },
    };
    RunPlan { mode: chosen, label }
}

/// The paths that a run leaves out: those of its preset, and none without one.
pub fn run_skip_paths(
    mode: Option<Mode>,
    os: Os,
    system_root: Option<&str>,
    system_drive: Option<&str>,
) -> (r: Vec<String>)
    ensures
        texts(r@) == match mode {
            Some(_) => skipped(os, system_root, system_drive),
            None => seq![],
        },
{
    match mode {
        Some(_) => os_skip_paths(os, system_root, system_drive),
        None => {
            let r: Vec<String> = Vec::new();
            proof {
                assert(texts(r@) =~= seq![]);
            }
            r
        },
    }
}

/// Something is always looked at: a run has a preset or a path.
pub proof fn law_a_run_has_targets(custom: bool, mode: Option<Mode>)
    ensures
        custom || preset_mode(custom, mode) is Some,
        mode is Some ==> preset_mode(custom, mode) == mode,
{
}

/// How a run goes on once its targets are known.
#[derive(Clone, Copy, Debug, PartialEq, Eq, Structural)]
pub enum Start {
    /// Print the targets, and end.
    List,
    /// Refuse to scan, and end.
    Refuse,
    /// Scan.
    Scan,
}

/// How a run goes on. A scan takes elevated rights; listing the targets does not.
pub fn start(list_targets: bool, admin: bool) -> (r: Start)
    ensures
        r == Start::List <==> list_targets,
        r == Start::Scan <==> !list_targets && admin,
{
    if list_targets {
        Start::List
    } else if admin {
        Start::Scan
    } else {
        Start::Refuse
    }
}

/// A target as it is listed.
#[derive(Clone, Debug)]
pub struct Target {
    /// The path as text.
    pub text: String,
    /// There is such a path.
    pub there: bool,
}

/// The line of a target.
pub open spec fn target_line(target: Target) -> Seq<char> {
    "  ["@ + padded(
        if target.there {
            "OK"@
        } else {
            "MISSING"@
        },
        7,
    ) + "] "@ + target.text@ + "\n"@
}

/// The lines of some targets.
pub open spec fn target_lines(targets: Seq<Target>) -> Seq<char>
    decreases targets.len(),
{
    if targets.len() == 0 {
        seq![]
    } else {
        target_lines(targets.drop_last()) + target_line(targets.last())
    }
}

/// The line of a path.
pub open spec fn path_line(path: FilePath) -> Seq<char> {
    "  "@ + path.location@ + "\n"@
}

/// The lines of paths, in an order.
pub open spec fn path_lines(paths: Seq<FilePath>, order: Seq<usize>) -> Seq<char>
    decreases order.len(),
{
    if order.len() == 0 {
        seq![]
    } else {
        path_lines(paths, order.drop_last()) + path_line(paths[order.last() as int])
    }
}

/// What paths are ordered by.
pub open spec fn list_keys(paths: Seq<FilePath>) -> Seq<Seq<Seq<u8>>> {
    paths.map_values(|path: FilePath| path.key())
}

/// Rows that only their paths tell apart.
pub open spec fn plain_rows(n: nat) -> Seq<RowKey> {
    Seq::new(n, |i: int| RowKey { path: i as usize, offset: 0 })
}

/// The order of some paths.
pub open spec fn is_path_order(paths: Seq<FilePath>, order: Seq<usize>) -> bool {
    in_row_order(list_keys(paths), plain_rows(paths.len()), order, 0, paths.len() as int)
}

/// The lines of paths, in the order of the paths.
pub open spec fn are_sorted_lines(paths: Seq<FilePath>, text: Seq<char>) -> bool {
    exists|order: Seq<usize>| #[trigger]
        is_path_order(paths, order) && text == path_lines(paths, order)
}

fn sorted_lines(paths: &Vec<FilePath>) -> (r: String)
    ensures
        are_sorted_lines(paths@, r@),
{
    let n: usize = paths.len();
    let mut refs: Vec<&FilePath> = Vec::new();
    let mut rows: Vec<RowKey> = Vec::new();
    let mut i: usize = 0;
    while i < n
        invariant
            i <= n == paths@.len(),
            refs@.len() == rows@.len() == i,
            forall|k: int| 0 <= k < i ==> (#[trigger] refs@[k]).key() == paths@[k].key(),
            forall|k: int|
                0 <= k < i ==> #[trigger] rows@[k] == (RowKey {
                    path: k as usize,
                    offset: 0,
                }),
        decreases n - i,
    {
        refs.push(&paths[i]);
        rows.push(RowKey { path: i, offset: 0 });
        i += 1;
    }
    let order: Vec<usize> = sort_rows(&refs, &rows);
    proof {
        assert(rows@ =~= plain_rows(n as nat));
        assert(keys_of(refs@) =~= list_keys(paths@));
    }
    let mut text: String = String::new();
    let mut k: usize = 0;
    proof {
        assert(order@.take(0) =~= seq![]);
    }
    while k < order.len()
        invariant
            k <= order@.len(),
            is_path_order(paths@, order@),
            text@ == path_lines(paths@, order@.take(k as int)),
        decreases order@.len() - k,
    {
        let path: &FilePath = &paths[order[k]];
        let ghost before = text@;
        text.append("  ");
        text.append(path.location.as_str());
        text.append("\n");
        proof {
            assert(order@.take(k + 1).drop_last() =~= order@.take(k as int));
            assert(text@ =~= before + path_line(*path));
        }
        k += 1;
    }
    proof {
        assert(order@.take(k as int) =~= order@);
    }
    text
}

/// Paths have one sorted list of lines only.
pub proof fn law_sorted_lines_are_determined(paths: Seq<FilePath>, a: Seq<char>, b: Seq<char>)
    requires
        are_sorted_lines(paths, a),
        are_sorted_lines(paths, b),
    ensures
        a == b,
{
    let x = choose|order: Seq<usize>| #[trigger]
        is_path_order(paths, order) && a == path_lines(paths, order);
    let y = choose|order: Seq<usize>| #[trigger]
        is_path_order(paths, order) && b == path_lines(paths, order);
    law_row_order_is_unique(
        list_keys(paths),
        plain_rows(paths.len()),
        x,
        y,
        0,
        paths.len() as int,
    );
}

/// The paths are the names of the folders that are left out.
pub open spec fn are_skip_names(paths: Seq<FilePath>) -> bool {
    &&& paths.len() == NAME_SKIP@.len()
    &&& forall|k: int|
        0 <= k < paths.len() ==> (#[trigger] paths[k]).location@ == NAME_SKIP@[k]@
            && paths[k].key() == seq![encode_utf8(NAME_SKIP@[k]@)]
}

fn skip_names() -> (r: Vec<FilePath>)
    ensures
        are_skip_names(r@),
{
    let mut r: Vec<FilePath> = Vec::new();
    let mut k: usize = 0;
    while k < NAME_SKIP.len()
        invariant
            k <= NAME_SKIP@.len(),
            r@.len() == k,
            forall|m: int|
                0 <= m < k ==> (#[trigger] r@[m]).location@ == NAME_SKIP@[m]@ && r@[m].key()
                    == seq![encode_utf8(NAME_SKIP@[m]@)],
        decreases NAME_SKIP@.len() - k,
    {
        let name: &'static str = NAME_SKIP[k];
        let mut components: Vec<Vec<u8>> = Vec::new();
        components.push(slice_to_vec(name.as_bytes()));
        let path: FilePath = FilePath { location: name.to_owned(), components };
        proof {
            assert(path.key() =~= seq![encode_utf8(name@)]);
        }
        r.push(path);
        k += 1;
    }
    r
}

/// What a run without a scan prints: its targets, and what it would leave out, sorted.
pub open spec fn is_listing(targets: Seq<Target>, skip: Seq<FilePath>, text: Seq<char>) -> bool {
    exists|paths: Seq<char>, names: Seq<char>, folders: Seq<FilePath>|
        #![trigger are_sorted_lines(skip, paths), are_sorted_lines(folders, names)]
        are_sorted_lines(skip, paths) && are_sorted_lines(folders, names) && are_skip_names(folders)
            && text == "\nTargets to walk:\n"@ + target_lines(targets)
            + "\nSkip absolute paths:\n"@ + paths
            + "\nSkip directory names (at any depth):\n"@ + names
}

/// What a run without a scan prints: its targets, and what it would leave out, sorted.
pub fn listing(targets: &Vec<Target>, skip: &Vec<FilePath>) -> (r: String)
    ensures
        is_listing(targets@, skip@, r@),
{
    let mut text: String = "\nTargets to walk:\n".to_owned();
    let ghost head = text@;
    let mut i: usize = 0;
    proof {
        assert(targets@.take(0) =~= seq![]);
        assert(head + target_lines(targets@.take(0)) =~= head);
    }
    while i < targets.len()
        invariant
            i <= targets@.len(),
            text@ == head + target_lines(targets@.take(i as int)),
        decreases targets@.len() - i,
    {
        text.append(target_text(&targets[i]).as_str());
        proof {
            assert(targets@.take(i + 1).drop_last() =~= targets@.take(i as int));
            assert(text@ =~= head + target_lines(targets@.take(i + 1)));
        }
        i += 1;
    }
    proof {
        assert(targets@.take(i as int) =~= targets@);
    }
    let paths: String = sorted_lines(skip);
    let folders: Vec<FilePath> = skip_names();
    let names: String = sorted_lines(&folders);
    text.append("\nSkip absolute paths:\n");
    text.append(paths.as_str());
    text.append("\nSkip directory names (at any depth):\n");
    text.append(names.as_str());
    text
}

fn target_text(target: &Target) -> (r: String)
    ensures
        r@ == target_line(*target),
{
    let mark: &'static str = if target.there {
        "OK"
    } else {
        "MISSING"
    };
    let mut text: String = "  [".to_owned();
    text.append(pad(mark, 7).as_str());
    text.append("] ");
    text.append(target.text.as_str());
    text.append("\n");
    text
}

/// What a run looks at, in words and as a preset: a path alone has no preset, nothing at all is
/// the quick one, and a mode is kept; the words name the mode, the system and the path.
pub proof fn law_what_a_run_looks_at(path: &str, mode: Mode, os_name: Seq<char>)
    ensures
        preset_mode(true, None) == None::<Mode>,
        preset_mode(false, None) == Some(Mode::Quick),
        preset_mode(true, Some(mode)) == Some(mode),
        preset_mode(false, Some(mode)) == Some(mode),
        run_label(Some(path), None, os_name) == "custom: "@ + path@,
        run_label(None, None, os_name) == run_label(None, Some(Mode::Quick), os_name),
        run_label(None, Some(mode), os_name) == mode.label() + " ("@ + os_name + ")"@,
        run_label(Some(path), Some(mode), os_name) == run_label(None, Some(mode), os_name)
            + " + custom: "@ + path@,
        Mode::Quick.label() == "Quick"@,
        Mode::Complete.label() == "Complete"@,
{
}

/// Targets are listed one below the other, each with a mark of seven characters in brackets.
pub proof fn law_targets_are_listed_in_order(targets: Seq<Target>, target: Target)
    ensures
        target_lines(targets.push(target)) == target_lines(targets) + target_line(target),
        target_lines(Seq::<Target>::empty()) == Seq::<char>::empty(),
        target.there ==> target_line(target) == "  ["@ + padded("OK"@, 7) + "] "@ + target.text@
            + "\n"@,
        !target.there ==> target_line(target) == "  ["@ + "MISSING"@ + "] "@ + target.text@ + "\n"@,
{
    assert(targets.push(target).drop_last() =~= targets);
    assert(target_lines(Seq::<Target>::empty()) =~= Seq::<char>::empty());
    reveal_strlit("MISSING");
    assert(padded("MISSING"@, 7) =~= "MISSING"@);
}

/// Paths are listed in their order, each once, on a line of its own.
pub proof fn law_paths_are_listed_in_order(paths: Seq<FilePath>, order: Seq<usize>, i: usize)
    ensures
        path_lines(paths, order.push(i)) == path_lines(paths, order) + "  "@
            + paths[i as int].location@ + "\n"@,
        path_lines(paths, Seq::<usize>::empty()) == Seq::<char>::empty(),
{
    assert(order.push(i).drop_last() =~= order);
    assert(path_lines(paths, Seq::<usize>::empty()) =~= Seq::<char>::empty());
    assert(path_lines(paths, order.push(i)) =~= path_lines(paths, order) + "  "@
        + paths[i as int].location@ + "\n"@);
}

} // verus!
