//! The files with card numbers, each once, in the order of their paths.

use vstd::prelude::*;
use crate::order::{
    in_row_order, keys_of, law_path_order_is_transitive, law_paths_are_ordered,
    law_rows_are_ordered, path_before, place_of_path, row_before, sort_rows, FilePath, Place,
    RowKey,
};
use crate::scan::{Hit, HitView};

verus! {

/// The card numbers that were found in one file.
#[derive(Clone, Debug)]
pub struct FileHits {
    pub path: FilePath,
    pub hits: Vec<Hit>,
}

/// The mathematical content of a [`FileHits`].
#[verifier::ext_equal]
pub struct FileHitsView {
    pub location: Seq<char>,
    pub key: Seq<Seq<u8>>,
    pub hits: Seq<HitView>,
}

impl View for FileHits {
    type V = FileHitsView;

    open spec fn view(&self) -> FileHitsView {
        FileHitsView {
            location: self.path.location@,
            key: self.path.key(),
            hits: self.hits@.map_values(|hit: Hit| hit@),
        }
    }
}

/// The mathematical content of a list of files.
pub open spec fn file_views(files: Seq<FileHits>) -> Seq<FileHitsView> {
    files.map_values(|file: FileHits| file@)
}

/// No file before this one has the same path.
pub open spec fn is_first(files: Seq<FileHitsView>, i: int) -> bool {
    &&& 0 <= i < files.len()
    &&& forall|j: int| 0 <= j < i ==> (#[trigger] files[j]).key != files[i].key
}

/// A file is the first one with its path.
pub open spec fn is_first_file(files: Seq<FileHitsView>, file: FileHitsView) -> bool {
    exists|i: int| #[trigger] is_first(files, i) && files[i] == file
}

/// `out` holds the first file of every path, in the order of the paths.
pub open spec fn deduped(files: Seq<FileHitsView>, out: Seq<FileHitsView>) -> bool {
    &&& forall|i: int, j: int|
        0 <= i < j < out.len() ==> path_before((#[trigger] out[i]).key, (#[trigger] out[j]).key)
    &&& forall|k: int| 0 <= k < out.len() ==> is_first_file(files, #[trigger] out[k])
    &&& forall|i: int| #[trigger] is_first(files, i) ==> out.contains(files[i])
}

/// The indices of the first file of every path, in the order of the paths.
spec fn is_kept(files: Seq<FileHitsView>, kept: Seq<usize>) -> bool {
    &&& forall|i: int, j: int|
        0 <= i < j < kept.len() ==> path_before(
            files[#[trigger] kept[i] as int].key,
            files[#[trigger] kept[j] as int].key,
        )
    &&& forall|k: int| 0 <= k < kept.len() ==> is_first(files, #[trigger] kept[k] as int)
    &&& forall|i: usize| is_first(files, i as int) ==> #[trigger] kept.contains(i)
}

/// The list without the row `k` of the order is done: the row `last` is the first with its path,
/// and those behind it, up to `k`, have that path too.
proof fn lemma_next_is_first(
    files: Seq<FileHitsView>,
    keys: Seq<Seq<Seq<u8>>>,
    rows: Seq<RowKey>,
    order: Seq<usize>,
    last: int,
    k: int,
)
    requires
        keys.len() == files.len() == rows.len(),
        forall|i: int| 0 <= i < files.len() ==> keys[i] == (#[trigger] files[i]).key,
        forall|i: int|
            0 <= i < rows.len() ==> #[trigger] rows[i] == (RowKey {
                path: i as usize,
                offset: 0,
            }),
        rows.len() <= usize::MAX,
        in_row_order(keys, rows, order, 0, rows.len() as int),
        0 <= k < order.len(),
        last < k,
        k > 0 ==> 0 <= last,
        forall|m: int|
            0 <= last <= m < k ==> keys[#[trigger] order[m] as int] == keys[order[last] as int],
        k > 0 ==> keys[order[last] as int] != keys[order[k] as int],
    ensures
        is_first(files, order[k] as int),
        k > 0 ==> path_before(keys[order[last] as int], keys[order[k] as int]),
{
    let x = order[k] as int;
    if k > 0 {
        assert(row_before(keys, rows, order[last] as int, x));
    }
    assert forall|j: int| 0 <= j < x implies (#[trigger] files[j]).key != files[x].key by {
        if files[j].key == files[x].key {
            assert(order.contains(j as usize));
            let q = choose|q: int| 0 <= q < order.len() && order[q] == j as usize;
            assert(row_before(keys, rows, j, x));
            law_rows_are_ordered(keys, rows, j, x);
            if q > k {
                assert(row_before(keys, rows, order[k] as int, order[q] as int));
            } else if q < last {
                assert(row_before(keys, rows, order[q] as int, order[last] as int));
                law_paths_are_ordered(keys[j], keys[order[last] as int]);
            }
        }
    }
}

/// Chooses the files to keep.
fn kept_files(files: &Vec<FileHits>) -> (r: Vec<usize>)
    ensures
        is_kept(file_views(files@), r@),
{
    let n: usize = files.len();
    let ghost views = file_views(files@);
    let mut paths: Vec<&FilePath> = Vec::new();
    let mut rows: Vec<RowKey> = Vec::new();
    let mut i: usize = 0;
    while i < n
        invariant
            i <= n == files@.len(),
            views == file_views(files@),
            paths@.len() == rows@.len() == i,
            forall|k: int| 0 <= k < i ==> (#[trigger] paths@[k]).key() == views[k].key,
            forall|k: int|
                0 <= k < i ==> #[trigger] rows@[k] == (RowKey {
                    path: k as usize,
                    offset: 0,
                }),
        decreases n - i,
    {
        paths.push(&files[i].path);
        rows.push(RowKey { path: i, offset: 0 });
        i += 1;
    }
    let ghost keys = keys_of(paths@);
    proof {
        assert forall|k: int| 0 <= k < views.len() implies keys[k] == (#[trigger] views[k]).key by {
            assert(paths@[k].key() == views[k].key);
        }
    }
    let order: Vec<usize> = sort_rows(&paths, &rows);
    let mut kept: Vec<usize> = Vec::new();
    let mut last: usize = 0;
    let mut k: usize = 0;
    while k < n
        invariant
            k <= n == files@.len() == rows@.len() == order@.len(),
            n == keys.len() == views.len(),
            views == file_views(files@),
            forall|i: int| 0 <= i < views.len() ==> keys[i] == (#[trigger] views[i]).key,
            forall|i: int|
                0 <= i < rows@.len() ==> #[trigger] rows@[i] == (RowKey {
                    path: i as usize,
                    offset: 0,
                }),
            in_row_order(keys, rows@, order@, 0, n as int),
            k == 0 ==> kept@.len() == 0,
            k > 0 ==> last < k && kept@.len() > 0 && kept@.last() == order@[last as int],
            forall|m: int|
                last <= m < k ==> keys[#[trigger] order@[m] as int] == keys[order@[last as int] as int],
            forall|i: int, j: int|
                0 <= i < j < kept@.len() ==> path_before(
                    views[#[trigger] kept@[i] as int].key,
                    views[#[trigger] kept@[j] as int].key,
                ),
            forall|i: int| 0 <= i < kept@.len() ==> is_first(views, #[trigger] kept@[i] as int),
            forall|m: int|
                0 <= m < k && is_first(views, order@[m] as int) ==> kept@.contains(
                    #[trigger] order@[m],
                ),
        decreases n - k,
    {
        let x: usize = order[k];
        let same: bool = if k == 0 {
            false
        } else {
            match place_of_path(&files[order[last]].path, &files[x].path) {
                Place::Same => true,
                _ => false,
            }
        };
        proof {
            assert(views[x as int].key == files@[x as int].path.key());
            if k > 0 {
                let l = order@[last as int];
                assert(views[l as int].key == files@[l as int].path.key());
                assert(row_before(keys, rows@, l as int, x as int));
            }
        }
        if same {
            proof {
                assert(!is_first(views, x as int)) by {
                    assert(views[order@[last as int] as int].key == views[x as int].key);
                }
            }
        } else {
            let ghost before = kept@;
            proof {
                lemma_next_is_first(
                    views,
                    keys,
                    rows@,
                    order@,
                    if k > 0 {
                        last as int
                    } else {
                        -1
                    },
                    k as int,
                );
                assert forall|i: int| 0 <= i < before.len() implies path_before(
                    views[#[trigger] before[i] as int].key,
                    views[x as int].key,
                ) by {
                    if i < before.len() - 1 {
                        assert(path_before(
                            views[before[i] as int].key,
                            views[before[before.len() - 1] as int].key,
                        ));
                        law_path_order_is_transitive(
                            views[before[i] as int].key,
                            views[before.last() as int].key,
                            views[x as int].key,
                        );
                    }
                }
            }
            kept.push(x);
            last = k;
            proof {
                assert(kept@.last() == x);
                assert forall|m: int|
                    0 <= m < k + 1 && is_first(views, order@[m] as int) implies kept@.contains(
                    #[trigger] order@[m],
                ) by {
                    if m < k {
                        assert(before.contains(order@[m]));
                        let p = choose|p: int| 0 <= p < before.len() && before[p] == order@[m];
                        assert(kept@[p] == order@[m]);
                    } else {
                        assert(kept@[before.len() as int] == x);
                    }
                }
            }
        }
        k += 1;
    }
    proof {
        assert forall|i: usize| is_first(views, i as int) implies #[trigger] kept@.contains(i) by {
            assert(order@.contains(i));
            let m = choose|m: int| 0 <= m < order@.len() && order@[m] == i;
            assert(kept@.contains(order@[m]));
        }
    }
    kept
}

/// Keeps the first file of every path, and orders the files by their paths.
pub fn dedup_files(files: &mut Vec<FileHits>)
    ensures
        deduped(file_views(old(files)@), file_views(final(files)@)),
{
    let kept: Vec<usize> = kept_files(files);
    let n: usize = files.len();
    let ghost all = files@;
    let ghost views = file_views(all);
    let mut slots: Vec<Option<FileHits>> = Vec::new();
    let mut taken: usize = 0;
    while taken < n
        invariant
            taken <= n == all.len(),
            slots@.len() == taken,
            files@ == all.take(n - taken),
            forall|i: int| n - taken <= i < n ==> slots@[n - 1 - i] == Some(#[trigger] all[i]),
        decreases n - taken,
    {
        let file: Option<FileHits> = files.pop();
        slots.push(file);
        taken += 1;
        proof {
            assert(files@ =~= all.take(n - taken));
        }
    }
    let mut k: usize = 0;
    while k < kept.len()
        invariant
            n == all.len() == slots@.len(),
            views == file_views(all),
            is_kept(views, kept@),
            k <= kept@.len(),
            files@.len() == k,
            forall|i: int| 0 <= i < k ==> #[trigger] files@[i] == all[kept@[i] as int],
            forall|i: int|
                k <= i < kept@.len() ==> slots@[n - 1 - #[trigger] kept@[i]] == Some(
                    all[kept@[i] as int],
                ),
        decreases kept@.len() - k,
    {
        let index: usize = kept[k];
        proof {
            assert(is_first(views, kept@[k as int] as int));
        }
        let mut one: Option<FileHits> = None;
        let ghost before = slots@;
        std::mem::swap(&mut slots[n - 1 - index], &mut one);
        proof {
            assert forall|i: int| k + 1 <= i < kept@.len() implies slots@[n - 1 - #[trigger] kept@[i]]
                == Some(all[kept@[i] as int]) by {
                assert(path_before(views[index as int].key, views[kept@[i] as int].key));
                law_paths_are_ordered(views[index as int].key, views[kept@[i] as int].key);
                assert(is_first(views, kept@[i] as int));
            }
        }
        match one {
            Some(file) => {
                files.push(file);
            },
            None => {},
        }
        k += 1;
    }
    proof {
        let out = file_views(files@);
        assert forall|i: int, j: int| 0 <= i < j < out.len() implies path_before(
            (#[trigger] out[i]).key,
            (#[trigger] out[j]).key,
        ) by {
            assert(files@[i] == all[kept@[i] as int] && files@[j] == all[kept@[j] as int]);
            assert(is_first(views, kept@[i] as int) && is_first(views, kept@[j] as int));
            assert(path_before(views[kept@[i] as int].key, views[kept@[j] as int].key));
        }
        assert forall|m: int| 0 <= m < out.len() implies is_first_file(
            views,
            #[trigger] out[m],
        ) by {
            assert(files@[m] == all[kept@[m] as int]);
            assert(is_first(views, kept@[m] as int));
        }
        assert forall|i: int| #[trigger] is_first(views, i) implies out.contains(views[i]) by {
            assert(kept@.contains(i as usize));
            let m = choose|m: int| 0 <= m < kept@.len() && kept@[m] == i as usize;
            assert(files@[m] == all[kept@[m] as int]);
            assert(out[m] == views[i]);
        }
    }
}

/// Two lists in strict order, with the same files, are the same up to any place.
proof fn lemma_same_files_at(a: Seq<FileHitsView>, b: Seq<FileHitsView>, k: int)
    requires
        forall|i: int, j: int|
            0 <= i < j < a.len() ==> path_before((#[trigger] a[i]).key, (#[trigger] a[j]).key),
        forall|i: int, j: int|
            0 <= i < j < b.len() ==> path_before((#[trigger] b[i]).key, (#[trigger] b[j]).key),
        forall|i: int| 0 <= i < a.len() ==> b.contains(#[trigger] a[i]),
        forall|i: int| 0 <= i < b.len() ==> a.contains(#[trigger] b[i]),
        0 <= k < a.len(),
    ensures
        k < b.len() && a[k] == b[k],
    decreases k,
{
    assert forall|m: int| 0 <= m < k implies m < b.len() && #[trigger] a[m] == b[m] by {
        lemma_same_files_at(a, b, m);
    }
    assert(b.contains(a[k]));
    let p = choose|p: int| 0 <= p < b.len() && b[p] == a[k];
    if p < k {
        assert(a[p] == b[p]);
        law_paths_are_ordered(a[p].key, a[k].key);
    } else if p > k {
        assert(a.contains(b[k]));
        let q = choose|q: int| 0 <= q < a.len() && a[q] == b[k];
        law_paths_are_ordered(b[k].key, b[p].key);
        if q < k {
            assert(a[q] == b[q]);
            law_paths_are_ordered(b[q].key, b[k].key);
        } else if q > k {
            assert(path_before(a[k].key, a[q].key));
        }
    }
}

proof fn lemma_same_files(a: Seq<FileHitsView>, b: Seq<FileHitsView>)
    requires
        forall|i: int, j: int|
            0 <= i < j < a.len() ==> path_before((#[trigger] a[i]).key, (#[trigger] a[j]).key),
        forall|i: int, j: int|
            0 <= i < j < b.len() ==> path_before((#[trigger] b[i]).key, (#[trigger] b[j]).key),
        forall|i: int| 0 <= i < a.len() ==> b.contains(#[trigger] a[i]),
        forall|i: int| 0 <= i < b.len() ==> a.contains(#[trigger] b[i]),
    ensures
        a == b,
{
    assert forall|k: int| 0 <= k < a.len() implies k < b.len() && #[trigger] a[k] == b[k] by {
        lemma_same_files_at(a, b, k);
    }
    if b.len() > a.len() {
        lemma_same_files_at(b, a, b.len() - 1);
    }
    if a.len() > 0 {
        lemma_same_files_at(a, b, a.len() - 1);
    }
    assert(a =~= b);
}

/// Every file has a first one with its path.
proof fn lemma_first_exists(files: Seq<FileHitsView>, i: int) -> (first: int)
    requires
        0 <= i < files.len(),
    ensures
        is_first(files, first),
        files[first].key == files[i].key,
    decreases i,
{
    if is_first(files, i) {
        i
    } else {
        let j = choose|j: int| 0 <= j < i && (#[trigger] files[j]).key == files[i].key;
        lemma_first_exists(files, j)
    }
}

/// Every path that was found is kept, and once only.
pub proof fn law_every_path_is_kept_once(files: Seq<FileHitsView>, out: Seq<FileHitsView>, i: int)
    requires
        deduped(files, out),
        0 <= i < files.len(),
    ensures
        exists|k: int| 0 <= k < out.len() && (#[trigger] out[k]).key == files[i].key,
        forall|j: int, k: int|
            0 <= j < k < out.len() ==> (#[trigger] out[j]).key != (#[trigger] out[k]).key,
{
    let first = lemma_first_exists(files, i);
    assert(out.contains(files[first]));
    let k = choose|k: int| 0 <= k < out.len() && out[k] == files[first];
    assert(out[k].key == files[i].key);
    assert forall|j: int, k: int| 0 <= j < k < out.len() implies (#[trigger] out[j]).key
        != (#[trigger] out[k]).key by {
        law_paths_are_ordered(out[j].key, out[k].key);
    }
}

/// The order in which files arrive does not matter: two runs that find the same in every file
/// end with the same list.
pub proof fn law_arrival_order_does_not_matter(
    first: Seq<FileHitsView>,
    second: Seq<FileHitsView>,
    a: Seq<FileHitsView>,
    b: Seq<FileHitsView>,
)
    requires
        deduped(first, a),
        deduped(second, b),
        forall|i: int| 0 <= i < first.len() ==> second.contains(#[trigger] first[i]),
        forall|i: int| 0 <= i < second.len() ==> first.contains(#[trigger] second[i]),
        forall|i: int, j: int|
            0 <= i < first.len() && 0 <= j < first.len() && (#[trigger] first[i]).key == (
            #[trigger] first[j]).key ==> first[i] == first[j],
    ensures
        a == b,
{
    assert forall|k: int| 0 <= k < a.len() implies b.contains(#[trigger] a[k]) by {
        let i = choose|i: int| #[trigger] is_first(first, i) && first[i] == a[k];
        assert(second.contains(first[i]));
        let j = choose|j: int| 0 <= j < second.len() && second[j] == first[i];
        let f = lemma_first_exists(second, j);
        assert(first.contains(second[f]));
        let g = choose|g: int| 0 <= g < first.len() && first[g] == second[f];
        assert(first[g] == first[i]);
        assert(b.contains(second[f]));
    }
    assert forall|k: int| 0 <= k < b.len() implies a.contains(#[trigger] b[k]) by {
        let i = choose|i: int| #[trigger] is_first(second, i) && second[i] == b[k];
        assert(first.contains(second[i]));
        let j = choose|j: int| 0 <= j < first.len() && first[j] == second[i];
        let f = lemma_first_exists(first, j);
        assert(first[f] == first[j]);
        assert(a.contains(first[f]));
    }
    lemma_same_files(a, b);
}

/// A second pass changes nothing.
pub proof fn law_dedup_twice_is_once(
    files: Seq<FileHitsView>,
    once: Seq<FileHitsView>,
    twice: Seq<FileHitsView>,
)
    requires
        deduped(files, once),
        deduped(once, twice),
    ensures
        once == twice,
{
    assert forall|k: int| 0 <= k < once.len() implies twice.contains(#[trigger] once[k]) by {
        assert forall|j: int| 0 <= j < k implies (#[trigger] once[j]).key != once[k].key by {
            law_paths_are_ordered(once[j].key, once[k].key);
        }
        assert(is_first(once, k));
    }
    lemma_same_files(once, twice);
}

/// Of the files with one path the first is kept, as it was found, and no other.
pub proof fn law_first_file_is_kept(
    files: Seq<FileHitsView>,
    out: Seq<FileHitsView>,
    i: int,
    k: int,
)
    requires
        deduped(files, out),
        0 <= i < files.len(),
        forall|j: int| 0 <= j < i ==> (#[trigger] files[j]).key != files[i].key,
        0 <= k < out.len(),
        out[k].key == files[i].key,
    ensures
        out[k] == files[i],
{
    assert(is_first_file(files, out[k]));
    let f = choose|f: int| #[trigger] is_first(files, f) && files[f] == out[k];
    if f < i {
        assert(files[f].key != files[i].key);
    } else if i < f {
        assert(files[i].key != files[f].key);
    }
}

/// The files that are kept are sorted by path, and each was found.
pub proof fn law_kept_files_are_sorted(files: Seq<FileHitsView>, out: Seq<FileHitsView>, k: int)
    requires
        deduped(files, out),
        0 <= k < out.len(),
    ensures
        files.contains(out[k]),
        k + 1 < out.len() ==> path_before(out[k].key, out[k + 1].key),
{
    assert(is_first_file(files, out[k]));
    let f = choose|f: int| #[trigger] is_first(files, f) && files[f] == out[k];
    assert(files[f] == out[k]);
}

} // verus!
